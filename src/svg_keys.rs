//! Template key resolution: splits the ordered text elements of a template
//! page into one group per slip and finds, in each group, the element that
//! holds the header, the luck level and each category.
use vstd::prelude::*;
use crate::assoc::{assoc_insert, keys_unique, pairs_map};
use crate::text::{contains_seq, prefix_before, str_contains, str_has_char, text_before};
use crate::text_index::TextElem;

verus! {

/// Number of slips printed on one template page.
pub const NR_SLIPS_PER_PAGE: usize = 4;

/// The identifiers of the elements that make up one slip.
pub struct SvgKeys {
    pub header_key: String,
    pub luck_level_key: String,
    pub cat_to_fortune_keys: Vec<(String, String)>,
}

/// What a template element's placeholder text marks it as.
pub ghost enum TagView {
    Header,
    LuckLevel,
    Category(Seq<char>),
    Unrecognized,
}

/// The key set of one slip as values.
pub ghost struct KeysView {
    pub header: Seq<char>,
    pub luck_level: Seq<char>,
    pub cats: Map<Seq<char>, String>,
}

impl SvgKeys {
    /// Each category appears once.
    pub open spec fn wf(&self) -> bool {
        keys_unique(self.cat_to_fortune_keys@)
    }

    pub open spec fn view(&self) -> KeysView {
        KeysView {
            header: self.header_key@,
            luck_level: self.luck_level_key@,
            cats: pairs_map(self.cat_to_fortune_keys@),
        }
    }
}

/// Why a template page cannot be split into slips.
pub enum TemplateError {
    /// A placeholder holds an underscore but names no known tag.
    UnknownTag { slip: usize, text: String },
    /// Two placeholders of one slip carry the same tag.
    DuplicateTag { slip: usize, tag: String },
    MissingHeader { slip: usize },
    MissingLuckLevel { slip: usize },
    MissingCategory { slip: usize, category: String },
    /// The number of text elements is not a multiple of the slips per page.
    UnevenElements { count: usize },
}

pub open spec fn tag_of(t: Seq<char>) -> TagView {
    if contains_seq(t, "header"@) {
        TagView::Header
    } else if contains_seq(t, "luck_level"@) {
        TagView::LuckLevel
    } else if t.contains('_') {
        TagView::Category(prefix_before(t, '_')->Some_0)
    } else {
        TagView::Unrecognized
    }
}

/// The placeholder names the header, the luck level or a known category.
pub open spec fn is_relevant(t: Seq<char>, cats: Seq<Seq<char>>) -> bool {
    contains_seq(t, "header"@) || contains_seq(t, "luck_level"@) || exists|k: int|
        0 <= k < cats.len() && contains_seq(t, cats[k])
}

/// The placeholder looks like a tag (it holds an underscore) but names none.
pub open spec fn is_unknown_tag(t: Seq<char>, cats: Seq<Seq<char>>) -> bool {
    t.contains('_') && !is_relevant(t, cats)
}

pub open spec fn strings_view(v: Seq<String>) -> Seq<Seq<char>> {
    v.map_values(|s: String| s@)
}

pub open spec fn empty_keys() -> KeysView {
    KeysView { header: Seq::empty(), luck_level: Seq::empty(), cats: Map::empty() }
}

/// The key set read from a group of elements, in order: a later element of
/// the same tag wins.
pub open spec fn fold_keys(chunk: Seq<TextElem>) -> KeysView
    decreases chunk.len(),
{
    if chunk.len() == 0 {
        empty_keys()
    } else {
        add_to_keys(fold_keys(chunk.drop_last()), chunk.last())
    }
}

/// The key set after one more element is read.
pub open spec fn add_to_keys(k: KeysView, e: TextElem) -> KeysView {
    match tag_of(e.text@) {
        TagView::Header => KeysView { header: e.id@, ..k },
        TagView::LuckLevel => KeysView { luck_level: e.id@, ..k },
        TagView::Category(c) => KeysView { cats: k.cats.insert(c, e.id), ..k },
        TagView::Unrecognized => k,
    }
}

pub open spec fn has_unknown_tag(chunk: Seq<TextElem>, cats: Seq<Seq<char>>) -> bool {
    exists|i: int| 0 <= i < chunk.len() && is_unknown_tag(chunk[i].text@, cats)
}

/// The key set names the header, the luck level and every category.
pub open spec fn keys_complete(k: KeysView, cats: Seq<Seq<char>>) -> bool {
    &&& k.header.len() > 0
    &&& k.luck_level.len() > 0
    &&& forall|j: int| 0 <= j < cats.len() ==> k.cats.contains_key(#[trigger] cats[j])
}

/// The name of a tag: `header`, `luck_level` or the category.
pub open spec fn tag_name(t: TagView) -> Seq<char> {
    match t {
        TagView::Header => "header"@,
        TagView::LuckLevel => "luck_level"@,
        TagView::Category(c) => c,
        TagView::Unrecognized => Seq::empty(),
    }
}

/// Elements `i` and `j` carry the same tag.
pub open spec fn same_tag_at(chunk: Seq<TextElem>, i: int, j: int) -> bool {
    tag_of(chunk[i].text@) != TagView::Unrecognized && tag_of(chunk[i].text@) == tag_of(chunk[j].text@)
}

/// Two elements of the group carry the same tag.
pub open spec fn has_duplicate_tag(chunk: Seq<TextElem>) -> bool {
    exists|i: int, j: int| 0 <= i < j < chunk.len() && #[trigger] same_tag_at(chunk, i, j)
}

/// A group of elements makes a valid slip: every placeholder with an
/// underscore names a tag, no tag occurs twice, and the header, the luck
/// level and every category are present.
pub open spec fn chunk_valid(chunk: Seq<TextElem>, cats: Seq<Seq<char>>) -> bool {
    !has_unknown_tag(chunk, cats) && !has_duplicate_tag(chunk) && keys_complete(fold_keys(chunk), cats)
}

/// `i` is the first element whose placeholder is an unknown tag.
pub open spec fn first_unknown(chunk: Seq<TextElem>, cats: Seq<Seq<char>>, i: int) -> bool {
    0 <= i < chunk.len() && is_unknown_tag(chunk[i].text@, cats) && forall|j: int| 0 <= j < i ==> !is_unknown_tag(#[trigger] chunk[j].text@, cats)
}

/// `j` is the first category that the key set lacks.
pub open spec fn first_missing_category(k: KeysView, cats: Seq<Seq<char>>, j: int) -> bool {
    0 <= j < cats.len() && !k.cats.contains_key(cats[j]) && forall|i: int| 0 <= i < j ==> k.cats.contains_key(#[trigger] cats[i])
}

/// `e` names what the key set `k` of slip `slip` lacks first: the
/// header, the luck level, or the first category.
pub open spec fn missing_error(k: KeysView, cats: Seq<Seq<char>>, slip: int, e: TemplateError) -> bool {
    if k.header.len() == 0 {
        e == TemplateError::MissingHeader { slip: slip as usize }
    } else if k.luck_level.len() == 0 {
        e == TemplateError::MissingLuckLevel { slip: slip as usize }
    } else {
        e matches TemplateError::MissingCategory { slip: s, category } && s == slip && exists|j: int|
            first_missing_category(k, cats, j) && category@ == cats[j]
    }
}

/// `e` is the error that an invalid group of slip `slip` gets: an unknown
/// tag first (naming the first such placeholder), then a repeated tag, then
/// a missing header, luck level or category (the first one lacking).
pub open spec fn expected_error(chunk: Seq<TextElem>, cats: Seq<Seq<char>>, slip: int, e: TemplateError) -> bool {
    let k = fold_keys(chunk);
    if has_unknown_tag(chunk, cats) {
        e matches TemplateError::UnknownTag { slip: s, text } && s == slip && exists|i: int| first_unknown(chunk, cats, i) && text@ == chunk[i].text@
    } else if has_duplicate_tag(chunk) {
        e matches TemplateError::DuplicateTag { slip: s, tag } && s == slip && exists|i: int, j: int|
            0 <= i < j < chunk.len() && #[trigger] same_tag_at(chunk, i, j) && tag@ == tag_name(tag_of(chunk[i].text@))
    } else if k.header.len() == 0 {
        e == TemplateError::MissingHeader { slip: slip as usize }
    } else if k.luck_level.len() == 0 {
        e == TemplateError::MissingLuckLevel { slip: slip as usize }
    } else {
        e matches TemplateError::MissingCategory { slip: s, category } && s == slip && exists|j: int|
            first_missing_category(k, cats, j) && category@ == cats[j]
    }
}

/// The elements of slip `i` when `elems` is split into equal groups.
pub open spec fn slip_chunk(elems: Seq<TextElem>, i: int) -> Seq<TextElem> {
    let size = elems.len() as int / (NR_SLIPS_PER_PAGE as int);
    elems.subrange(i * size, (i + 1) * size)
}

/// Every slip of the page is valid and the elements split evenly.
pub open spec fn page_valid(elems: Seq<TextElem>, cats: Seq<Seq<char>>) -> bool {
    &&& elems.len() as int % (NR_SLIPS_PER_PAGE as int) == 0
    &&& forall|i: int| 0 <= i < NR_SLIPS_PER_PAGE ==> chunk_valid(#[trigger] slip_chunk(elems, i), cats)
}

impl TemplateError {
    pub open spec fn slip_of(&self) -> int {
        match self {
            TemplateError::UnknownTag { slip, .. } => *slip as int,
            TemplateError::DuplicateTag { slip, .. } => *slip as int,
            TemplateError::MissingHeader { slip } => *slip as int,
            TemplateError::MissingLuckLevel { slip } => *slip as int,
            TemplateError::MissingCategory { slip, .. } => *slip as int,
            TemplateError::UnevenElements { .. } => -1,
        }
    }
}

/// Tells whether a placeholder names the header, the luck level or one of the
/// categories.
pub fn is_relevant_text_elem(text_elem: &TextElem, fortune_categories: &Vec<String>) -> (r: bool)
    ensures
        r == is_relevant(text_elem.text@, strings_view(fortune_categories@)),
{
    let t = text_elem.text.as_str();
    if str_contains(t, "header") || str_contains(t, "luck_level") {
        return true;
    }
    let ghost cats = strings_view(fortune_categories@);
    let mut k: usize = 0;
    while k < fortune_categories.len()
        invariant
            k <= fortune_categories@.len(),
            cats == strings_view(fortune_categories@),
            t@ == text_elem.text@,
            forall|j: int| 0 <= j < k ==> !contains_seq(t@, cats[j]),
        decreases fortune_categories@.len() - k,
    {
        if str_contains(t, fortune_categories[k].as_str()) {
            assert(contains_seq(t@, cats[k as int]));
            return true;
        }
        k = k + 1;
    }
    false
}

/// Fails on the first placeholder that holds an underscore but names no tag.
pub fn check_missing_tags(
    elems: &Vec<TextElem>,
    start: usize,
    end: usize,
    fortune_categories: &Vec<String>,
    slip: usize,
) -> (r: Result<(), TemplateError>)
    requires
        start <= end <= elems@.len(),
    ensures
        r.is_ok() <==> !has_unknown_tag(elems@.subrange(start as int, end as int), strings_view(fortune_categories@)),
        r is Err ==> expected_error(elems@.subrange(start as int, end as int), strings_view(fortune_categories@), slip as int, r->Err_0),
{
    let ghost cats = strings_view(fortune_categories@);
    let ghost chunk = elems@.subrange(start as int, end as int);
    let mut i: usize = start;
    while i < end
        invariant
            start <= i <= end <= elems@.len(),
            chunk == elems@.subrange(start as int, end as int),
            cats == strings_view(fortune_categories@),
            forall|j: int| 0 <= j < i - start ==> !is_unknown_tag(#[trigger] chunk[j].text@, cats),
        decreases end - i,
    {
        let e = &elems[i];
        let has_underscore = str_has_char(e.text.as_str(), '_');
        if has_underscore && !is_relevant_text_elem(e, fortune_categories) {
            assert(chunk[i - start] == elems@[i as int]);
            assert(first_unknown(chunk, cats, i - start));
            return Err(TemplateError::UnknownTag { slip, text: e.text.clone() });
        }
        assert(chunk[i - start] == elems@[i as int]);
        i = i + 1;
    }
    Ok(())
}

/// Records one element in the key set according to its placeholder.
pub fn add_text_elem_to_keys(svg_elem_keys: &mut SvgKeys, text_elem: &TextElem)
    requires
        old(svg_elem_keys).wf(),
    ensures
        final(svg_elem_keys).wf(),
        final(svg_elem_keys)@ == add_to_keys(old(svg_elem_keys)@, *text_elem),
{
    let t = text_elem.text.as_str();
    if str_contains(t, "header") {
        svg_elem_keys.header_key = text_elem.id.clone();
    } else if str_contains(t, "luck_level") {
        svg_elem_keys.luck_level_key = text_elem.id.clone();
    } else {
        match text_before(t, '_') {
            Some(category) => {
                assoc_insert(&mut svg_elem_keys.cat_to_fortune_keys, category, text_elem.id.clone());
            },
            None => {},
        }
    }
}

/// Fails when the header, the luck level or a category has no element.
pub fn no_empty_keys(svg_elem_keys: &SvgKeys, fortune_categories: &Vec<String>, slip: usize) -> (r:
    Result<(), TemplateError>)
    requires
        svg_elem_keys.wf(),
    ensures
        r.is_ok() <==> keys_complete(svg_elem_keys@, strings_view(fortune_categories@)),
        r is Err ==> missing_error(svg_elem_keys@, strings_view(fortune_categories@), slip as int, r->Err_0),
{
    if svg_elem_keys.header_key.as_str().is_empty() {
        return Err(TemplateError::MissingHeader { slip });
    }
    if svg_elem_keys.luck_level_key.as_str().is_empty() {
        return Err(TemplateError::MissingLuckLevel { slip });
    }
    let ghost cats = strings_view(fortune_categories@);
    let mut j: usize = 0;
    while j < fortune_categories.len()
        invariant
            j <= fortune_categories@.len(),
            cats == strings_view(fortune_categories@),
            svg_elem_keys@.header.len() > 0,
            svg_elem_keys@.luck_level.len() > 0,
            forall|i: int| 0 <= i < j ==> svg_elem_keys@.cats.contains_key(#[trigger] cats[i]),
        decreases fortune_categories@.len() - j,
    {
        let category = &fortune_categories[j];
        if crate::assoc::assoc_find(&svg_elem_keys.cat_to_fortune_keys, category).is_none() {
            assert(cats[j as int] == category@);
            assert(first_missing_category(svg_elem_keys@, cats, j as int));
            return Err(TemplateError::MissingCategory { slip, category: category.clone() });
        }
        j = j + 1;
    }
    Ok(())
}

/// The tag a placeholder carries.
pub enum SlotTag {
    Header,
    LuckLevel,
    Category(String),
    Unrecognized,
}

impl SlotTag {
    pub open spec fn view(&self) -> TagView {
        match self {
            SlotTag::Header => TagView::Header,
            SlotTag::LuckLevel => TagView::LuckLevel,
            SlotTag::Category(c) => TagView::Category(c@),
            SlotTag::Unrecognized => TagView::Unrecognized,
        }
    }
}

/// Reads the tag of a placeholder.
pub fn slot_tag(text: &str) -> (r: SlotTag)
    ensures
        r@ == tag_of(text@),
{
    if str_contains(text, "header") {
        SlotTag::Header
    } else if str_contains(text, "luck_level") {
        SlotTag::LuckLevel
    } else {
        match text_before(text, '_') {
            Some(c) => SlotTag::Category(c),
            None => SlotTag::Unrecognized,
        }
    }
}

/// Tells whether two tags are the same recognised tag.
pub fn same_tag(a: &SlotTag, b: &SlotTag) -> (r: bool)
    ensures
        r == (a@ != TagView::Unrecognized && a@ == b@),
{
    match (a, b) {
        (SlotTag::Header, SlotTag::Header) => true,
        (SlotTag::LuckLevel, SlotTag::LuckLevel) => true,
        (SlotTag::Category(x), SlotTag::Category(y)) => x.eq(y),
        _ => false,
    }
}

/// The name of a tag.
pub fn tag_name_text(t: &SlotTag) -> (r: String)
    ensures
        r@ == tag_name(t@),
{
    match t {
        SlotTag::Header => String::from_str("header"),
        SlotTag::LuckLevel => String::from_str("luck_level"),
        SlotTag::Category(c) => c.clone(),
        SlotTag::Unrecognized => String::new(),
    }
}

/// Fails when two placeholders of the elements `start..end` carry the same
/// tag.
pub fn check_duplicate_tags(elems: &Vec<TextElem>, start: usize, end: usize, slip: usize) -> (r: Result<
    (),
    TemplateError,
>)
    requires
        start <= end <= elems@.len(),
    ensures
        r.is_ok() <==> !has_duplicate_tag(elems@.subrange(start as int, end as int)),
        r is Err ==> (r->Err_0 matches TemplateError::DuplicateTag { slip: s, tag } && s == slip && exists|i: int, j: int|
            0 <= i < j < elems@.subrange(start as int, end as int).len() && #[trigger] same_tag_at(
                elems@.subrange(start as int, end as int),
                i,
                j,
            ) && tag@ == tag_name(tag_of(elems@.subrange(start as int, end as int)[i].text@))),
{
    let ghost chunk = elems@.subrange(start as int, end as int);
    let mut tags: Vec<SlotTag> = Vec::new();
    let mut k: usize = start;
    while k < end
        invariant
            start <= k <= end <= elems@.len(),
            chunk == elems@.subrange(start as int, end as int),
            tags@.len() == k - start,
            forall|m: int| 0 <= m < tags@.len() ==> (#[trigger] tags@[m])@ == tag_of(chunk[m].text@),
        decreases end - k,
    {
        assert(chunk[k - start] == elems@[k as int]);
        tags.push(slot_tag(elems[k].text.as_str()));
        k = k + 1;
    }
    let n = tags.len();
    let mut j: usize = 0;
    while j < n
        invariant
            n == chunk.len(),
            n == tags@.len(),
            chunk == elems@.subrange(start as int, end as int),
            forall|m: int| 0 <= m < tags@.len() ==> (#[trigger] tags@[m])@ == tag_of(chunk[m].text@),
            j <= n,
            forall|a: int, b: int| 0 <= a < b < j ==> !#[trigger] same_tag_at(chunk, a, b),
        decreases n - j,
    {
        let mut i: usize = 0;
        while i < j
            invariant
                n == chunk.len(),
                n == tags@.len(),
                forall|m: int| 0 <= m < tags@.len() ==> (#[trigger] tags@[m])@ == tag_of(chunk[m].text@),
                i <= j < n,
                chunk == elems@.subrange(start as int, end as int),
                forall|a: int| 0 <= a < i ==> !#[trigger] same_tag_at(chunk, a, j as int),
            decreases j - i,
        {
            if same_tag(&tags[i], &tags[j]) {
                assert(same_tag_at(chunk, i as int, j as int));
                return Err(TemplateError::DuplicateTag { slip, tag: tag_name_text(&tags[i]) });
            }
            i = i + 1;
        }
        j = j + 1;
    }
    Ok(())
}

/// Reads the key set of one slip from the elements `start..end`.
pub fn retrieve_svg_elem_keys_for_chunk(
    elems: &Vec<TextElem>,
    start: usize,
    end: usize,
    fortune_categories: &Vec<String>,
    slip: usize,
) -> (r: Result<SvgKeys, TemplateError>)
    requires
        start <= end <= elems@.len(),
    ensures
        r.is_ok() <==> chunk_valid(elems@.subrange(start as int, end as int), strings_view(fortune_categories@)),
        r is Ok ==> r->Ok_0.wf() && r->Ok_0@ == fold_keys(elems@.subrange(start as int, end as int)),
        r is Err ==> r->Err_0.slip_of() == slip,
        r is Err ==> expected_error(elems@.subrange(start as int, end as int), strings_view(fortune_categories@), slip as int, r->Err_0),
{
    check_missing_tags(elems, start, end, fortune_categories, slip)?;
    check_duplicate_tags(elems, start, end, slip)?;
    let mut keys = SvgKeys {
        header_key: String::new(),
        luck_level_key: String::new(),
        cat_to_fortune_keys: Vec::new(),
    };
    let ghost chunk = elems@.subrange(start as int, end as int);
    assert(keys@.cats =~= Map::empty());
    assert(chunk.subrange(0, 0) =~= Seq::<TextElem>::empty());
    let mut i: usize = start;
    while i < end
        invariant
            start <= i <= end <= elems@.len(),
            chunk == elems@.subrange(start as int, end as int),
            keys.wf(),
            keys@ == fold_keys(chunk.subrange(0, i - start)),
        decreases end - i,
    {
        add_text_elem_to_keys(&mut keys, &elems[i]);
        proof {
            let p = chunk.subrange(0, i + 1 - start);
            assert(p.drop_last() =~= chunk.subrange(0, i - start));
            assert(p.last() == elems@[i as int]);
        }
        i = i + 1;
    }
    assert(chunk.subrange(0, end - start) =~= chunk);
    no_empty_keys(&keys, fortune_categories, slip)?;
    Ok(keys)
}

/// Splits the page's text elements into one equal group per slip and reads
/// the key set of each group.
pub fn retrieve_svg_keys(text_elems: &Vec<TextElem>, fortune_categories: &Vec<String>) -> (r: Result<
    Vec<SvgKeys>,
    TemplateError,
>)
    ensures
        r.is_ok() <==> page_valid(text_elems@, strings_view(fortune_categories@)),
        r is Ok ==> {
            let v = r->Ok_0;
            &&& v@.len() == NR_SLIPS_PER_PAGE
            &&& forall|i: int|
                0 <= i < NR_SLIPS_PER_PAGE ==> {
                    &&& (#[trigger] v@[i]).wf()
                    &&& v@[i]@ == fold_keys(slip_chunk(text_elems@, i))
                    &&& keys_complete(v@[i]@, strings_view(fortune_categories@))
                }
        },
        r is Err ==> (r->Err_0 is UnevenElements <==> text_elems@.len() as int % (NR_SLIPS_PER_PAGE as int) != 0),
        r is Err && !(r->Err_0 is UnevenElements) ==> {
            let s = r->Err_0.slip_of();
            &&& 0 <= s < NR_SLIPS_PER_PAGE
            &&& !chunk_valid(slip_chunk(text_elems@, s), strings_view(fortune_categories@))
            &&& expected_error(slip_chunk(text_elems@, s), strings_view(fortune_categories@), s, r->Err_0)
            &&& forall|i: int| 0 <= i < s ==> chunk_valid(#[trigger] slip_chunk(text_elems@, i), strings_view(fortune_categories@))
        },
{
    let n = text_elems.len();
    if n % NR_SLIPS_PER_PAGE != 0 {
        return Err(TemplateError::UnevenElements { count: n });
    }
    let size = n / NR_SLIPS_PER_PAGE;
    let ghost cats = strings_view(fortune_categories@);
    let mut all: Vec<SvgKeys> = Vec::new();
    let mut slip: usize = 0;
    while slip < NR_SLIPS_PER_PAGE
        invariant
            n == text_elems@.len(),
            n as int % (NR_SLIPS_PER_PAGE as int) == 0,
            size == n as int / (NR_SLIPS_PER_PAGE as int),
            slip <= NR_SLIPS_PER_PAGE,
            cats == strings_view(fortune_categories@),
            all@.len() == slip,
            forall|i: int|
                0 <= i < slip ==> {
                    &&& (#[trigger] all@[i]).wf()
                    &&& all@[i]@ == fold_keys(slip_chunk(text_elems@, i))
                },
            forall|i: int| 0 <= i < slip ==> chunk_valid(#[trigger] slip_chunk(text_elems@, i), cats),
        decreases NR_SLIPS_PER_PAGE - slip,
    {
        assert(slip * size <= size * (slip + 1) <= n) by (nonlinear_arith)
            requires
                size == n as int / 4,
                n as int % 4 == 0,
                slip < 4,
        ;
        let start = slip * size;
        assert(slip * size + size == (slip + 1) * size) by (nonlinear_arith);
        let end = start + size;
        assert(text_elems@.subrange(start as int, end as int) == slip_chunk(text_elems@, slip as int));
        match retrieve_svg_elem_keys_for_chunk(text_elems, start, end, fortune_categories, slip) {
            Ok(keys) => {
                all.push(keys);
            },
            Err(e) => {
                return Err(e);
            },
        }
        slip = slip + 1;
    }
    Ok(all)
}

/// Every identifier a key set holds is the identifier of one of the
/// elements it was read from.
pub proof fn lemma_fold_ids(chunk: Seq<TextElem>)
    ensures
        fold_keys(chunk).header.len() > 0 ==> exists|i: int| 0 <= i < chunk.len() && (#[trigger] chunk[i]).id@ == fold_keys(chunk).header,
        fold_keys(chunk).luck_level.len() > 0 ==> exists|i: int| 0 <= i < chunk.len() && (#[trigger] chunk[i]).id@ == fold_keys(chunk).luck_level,
        forall|c: Seq<char>| #[trigger] fold_keys(chunk).cats.contains_key(c) ==> exists|i: int|
            0 <= i < chunk.len() && (#[trigger] chunk[i]).id == fold_keys(chunk).cats[c],
    decreases chunk.len(),
{
    if chunk.len() > 0 {
        let p = chunk.drop_last();
        lemma_fold_ids(p);
        let n = chunk.len() - 1;
        assert(chunk[n] == chunk.last());
        assert forall|i: int| 0 <= i < p.len() implies p[i] == chunk[i] by {}
        let k = fold_keys(chunk);
        let k0 = fold_keys(p);
        if k.header.len() > 0 && k.header != k0.header {
            assert(chunk[n].id@ == k.header);
        } else if k.header.len() > 0 {
            let i = choose|i: int| 0 <= i < p.len() && (#[trigger] p[i]).id@ == k0.header;
            assert(chunk[i].id@ == k.header);
        }
        if k.luck_level.len() > 0 && k.luck_level != k0.luck_level {
            assert(chunk[n].id@ == k.luck_level);
        } else if k.luck_level.len() > 0 {
            let i = choose|i: int| 0 <= i < p.len() && (#[trigger] p[i]).id@ == k0.luck_level;
            assert(chunk[i].id@ == k.luck_level);
        }
        assert forall|c: Seq<char>| #[trigger] k.cats.contains_key(c) implies exists|i: int|
            0 <= i < chunk.len() && (#[trigger] chunk[i]).id == k.cats[c] by {
            if k0.cats.contains_key(c) && k.cats[c] == k0.cats[c] {
                let i = choose|i: int| 0 <= i < p.len() && (#[trigger] p[i]).id == k0.cats[c];
                assert(chunk[i].id == k.cats[c]);
            } else {
                assert(chunk[n].id == k.cats[c]);
            }
        }
    }
}

} // verus!
