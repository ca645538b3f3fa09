//! The content allocator: for each luck level, shuffles every category's
//! candidate texts and deals them out, one text per category per slip, as
//! many slips as the scarcest category allows.
use vstd::prelude::*;
use rand::seq::SliceRandom;
use crate::assoc::{assoc_find, keys_unique, pair_keys, pairs_map};
use crate::fortune_data::{FortuneData, FortuneDataInner, LuckLevelInfo};
use crate::text::{text_less, text_lt};

verus! {

broadcast use vstd::seq_lib::group_to_multiset_ensures;

/// The content of one slip: header, luck-level label and one text per
/// category.
pub struct FortuneSlipTextRef {
    pub header: String,
    pub luck_level: String,
    pub category_to_fortune: Vec<(String, String)>,
}

impl FortuneSlipTextRef {
    /// Each category appears once.
    pub open spec fn wf(&self) -> bool {
        keys_unique(self.category_to_fortune@)
    }
}

/// Deals the texts of a catalog out to slips.
pub struct FortuneSplitter<'a> {
    fortune_data: &'a FortuneData,
}

/// Why no slips could be dealt for a luck level.
pub enum AllocError {
    /// The registry has no such luck level.
    UnknownLuckLevel { key: String },
    /// A category has no texts for the luck level.
    MissingCategoryTexts { category: String, key: String },
    /// The catalog has no categories.
    NoCategories { key: String },
    /// The orders handed in do not fit the categories.
    BadOrders,
}

/// The candidate texts of category `c` for luck level `key`.
pub open spec fn texts_for(d: FortuneDataInner, c: int, key: Seq<char>) -> Seq<String> {
    pairs_map(d.fortunes_per_category@[c].1@)[key]@
}

/// The fewest candidate texts any of the first `n` categories has for `key`.
pub open spec fn min_count(d: FortuneDataInner, key: Seq<char>, n: int) -> int
    decreases n,
{
    if n <= 1 {
        texts_for(d, 0, key).len() as int
    } else {
        let m = min_count(d, key, n - 1);
        let here = texts_for(d, n - 1, key).len() as int;
        if here < m {
            here
        } else {
            m
        }
    }
}

/// The number of slips dealt for `key`: the fewest texts of any category.
pub open spec fn slip_count(d: FortuneDataInner, key: Seq<char>) -> int {
    min_count(d, key, d.fortunes_per_category@.len() as int)
}

/// `o` is an ordering of the positions `0..n`.
pub open spec fn is_order(o: Seq<usize>, n: int) -> bool {
    &&& o.len() == n
    &&& o.no_duplicates()
    &&& forall|i: int| 0 <= i < o.len() ==> o[i] < n
}

/// One ordering per category, each over that category's texts for `key`.
pub open spec fn orders_fit(d: FortuneDataInner, key: Seq<char>, orders: Seq<Seq<usize>>) -> bool {
    &&& orders.len() == d.fortunes_per_category@.len()
    &&& forall|c: int|
        0 <= c < orders.len() ==> is_order(#[trigger] orders[c], texts_for(d, c, key).len() as int)
}

/// Slip `i` for `key` under the given orderings: the luck level's labels and,
/// for each category in order, the text at position `orders[c][i]`.
pub open spec fn slip_dealt(
    d: FortuneDataInner,
    key: Seq<char>,
    info: LuckLevelInfo,
    orders: Seq<Seq<usize>>,
    i: int,
    s: FortuneSlipTextRef,
) -> bool {
    &&& s.header == info.jap
    &&& s.luck_level == info.eng
    &&& s.wf()
    &&& s.category_to_fortune@.len() == d.fortunes_per_category@.len()
    &&& forall|c: int|
        0 <= c < s.category_to_fortune@.len() ==> {
            &&& (#[trigger] s.category_to_fortune@[c]).0 == d.fortunes_per_category@[c].0
            &&& s.category_to_fortune@[c].1 == texts_for(d, c, key)[orders[c][i] as int]
        }
}

/// The slips dealt for `key` under the given orderings.
pub open spec fn slips_dealt(
    d: FortuneDataInner,
    key: Seq<char>,
    info: LuckLevelInfo,
    orders: Seq<Seq<usize>>,
    r: Seq<FortuneSlipTextRef>,
) -> bool {
    &&& r.len() == slip_count(d, key)
    &&& forall|i: int| 0 <= i < r.len() ==> slip_dealt(d, key, info, orders, i, #[trigger] r[i])
}

/// The key of luck level `l` of the registry.
pub open spec fn level_key(d: FortuneDataInner, l: int) -> Seq<char> {
    d.settings.luck_levels@[l].0@
}

/// The translated label of luck level `l` of the registry.
pub open spec fn level_label(d: FortuneDataInner, l: int) -> Seq<char> {
    d.settings.luck_levels@[l].1.eng@
}

/// Where the slips of the `l`-th dealt luck level start, when the levels
/// are dealt in the order `ord` of registry positions.
pub open spec fn level_offset(d: FortuneDataInner, ord: Seq<usize>, l: int) -> int
    decreases l,
{
    if l <= 0 {
        0
    } else {
        level_offset(d, ord, l - 1) + slip_count(d, level_key(d, ord[l - 1] as int))
    }
}

/// `r` holds the slips of the first `n` luck levels of `ord`, level after
/// level, each dealt under its orderings `os[l]`.
pub open spec fn levels_dealt(
    d: FortuneDataInner,
    ord: Seq<usize>,
    os: Seq<Seq<Seq<usize>>>,
    r: Seq<FortuneSlipTextRef>,
    n: int,
) -> bool {
    &&& os.len() == n
    &&& r.len() == level_offset(d, ord, n)
    &&& forall|l: int|
        0 <= l < n ==> {
            &&& orders_fit(d, level_key(d, ord[l] as int), #[trigger] os[l])
            &&& slips_dealt(
                d,
                level_key(d, ord[l] as int),
                d.settings.luck_levels@[ord[l] as int].1,
                os[l],
                r.subrange(level_offset(d, ord, l), level_offset(d, ord, l + 1)),
            )
        }
}

/// The levels `ord` are in the order of their translated labels.
pub open spec fn sorted_by_label(d: FortuneDataInner, ord: Seq<usize>) -> bool {
    forall|a: int, b: int| 0 <= a < b < ord.len() ==> !text_lt(level_label(d, ord[b] as int), level_label(d, ord[a] as int))
}

pub proof fn lemma_min_count_nonneg(d: FortuneDataInner, key: Seq<char>, n: int)
    ensures
        min_count(d, key, n) >= 0,
    decreases n,
{
    if n > 1 {
        lemma_min_count_nonneg(d, key, n - 1);
    }
}

pub proof fn lemma_offset_monotone(d: FortuneDataInner, ord: Seq<usize>, a: int, b: int)
    requires
        0 <= a <= b,
    ensures
        0 <= level_offset(d, ord, a) <= level_offset(d, ord, b),
    decreases b,
{
    if a < b {
        lemma_offset_monotone(d, ord, a, b - 1);
        lemma_min_count_nonneg(d, level_key(d, ord[b - 1] as int), d.fortunes_per_category@.len() as int);
    } else if b > 0 {
        lemma_offset_monotone(d, ord, 0, b - 1);
        lemma_min_count_nonneg(d, level_key(d, ord[b - 1] as int), d.fortunes_per_category@.len() as int);
    }
}

pub proof fn lemma_min_count_bounds(d: FortuneDataInner, key: Seq<char>, n: int)
    requires
        1 <= n,
    ensures
        forall|c: int| 0 <= c < n ==> min_count(d, key, n) <= #[trigger] texts_for(d, c, key).len(),
        exists|c: int| 0 <= c < n && min_count(d, key, n) == #[trigger] texts_for(d, c, key).len(),
    decreases n,
{
    if n > 1 {
        lemma_min_count_bounds(d, key, n - 1);
        if texts_for(d, n - 1, key).len() < min_count(d, key, n - 1) {
            assert(min_count(d, key, n) == texts_for(d, n - 1, key).len());
        } else {
            let c = choose|c: int| 0 <= c < n - 1 && min_count(d, key, n - 1) == #[trigger] texts_for(d, c, key).len();
            assert(min_count(d, key, n) == texts_for(d, c, key).len());
        }
    } else {
        assert(min_count(d, key, n) == texts_for(d, 0, key).len());
    }
}

/// The number of slips dealt for a luck level is the minimum, over all
/// categories, of the number of texts the category has for that level.
pub proof fn lemma_slip_count_is_minimum(
    d: FortuneDataInner,
    key: Seq<char>,
    info: LuckLevelInfo,
    os: Seq<Seq<usize>>,
    r: Seq<FortuneSlipTextRef>,
)
    requires
        d.fortunes_per_category@.len() > 0,
        slips_dealt(d, key, info, os, r),
    ensures
        forall|c: int| 0 <= c < d.fortunes_per_category@.len() ==> r.len() <= #[trigger] texts_for(d, c, key).len(),
        exists|c: int| 0 <= c < d.fortunes_per_category@.len() && r.len() == #[trigger] texts_for(d, c, key).len(),
{
    lemma_min_count_bounds(d, key, d.fortunes_per_category@.len() as int);
}

/// No two slips dealt for the same luck level take the same candidate text
/// of a category: slip `i` takes, for category `c`, the candidate at
/// position `os[c][i]`, and these positions differ from slip to slip.
pub proof fn lemma_no_text_reused(
    d: FortuneDataInner,
    key: Seq<char>,
    info: LuckLevelInfo,
    os: Seq<Seq<usize>>,
    r: Seq<FortuneSlipTextRef>,
)
    requires
        orders_fit(d, key, os),
        slips_dealt(d, key, info, os, r),
    ensures
        forall|i: int, j: int, c: int|
            0 <= i < r.len() && 0 <= j < r.len() && i != j && 0 <= c < d.fortunes_per_category@.len() ==> {
                &&& #[trigger] os[c][i] != #[trigger] os[c][j]
                &&& os[c][i] < texts_for(d, c, key).len()
                &&& r[i].category_to_fortune@[c] == (d.fortunes_per_category@[c].0, texts_for(d, c, key)[os[c][i] as int])
            },
{
    if d.fortunes_per_category@.len() > 0 {
        lemma_min_count_bounds(d, key, d.fortunes_per_category@.len() as int);
    }
    assert forall|i: int, j: int, c: int|
        0 <= i < r.len() && 0 <= j < r.len() && i != j && 0 <= c < d.fortunes_per_category@.len() implies {
            &&& #[trigger] os[c][i] != #[trigger] os[c][j]
            &&& os[c][i] < texts_for(d, c, key).len()
            &&& r[i].category_to_fortune@[c] == (d.fortunes_per_category@[c].0, texts_for(d, c, key)[os[c][i] as int])
        } by {
        assert(is_order(os[c], texts_for(d, c, key).len() as int));
        assert(slip_dealt(d, key, info, os, i, r[i]));
        assert(r[i].category_to_fortune@[c].0 == d.fortunes_per_category@[c].0);
    }
}

/// While fewer positions are taken than there are, one is still free.
pub proof fn lemma_unused_exists(used: Seq<bool>, ord: Seq<usize>, n: int)
    requires
        used.len() == n,
        n <= usize::MAX,
        ord.len() < n,
        ord.no_duplicates(),
        forall|a: int| 0 <= a < ord.len() ==> ord[a] < n && used[ord[a] as int],
        forall|x: int| 0 <= x < n && used[x] ==> ord.contains(x as usize),
    ensures
        exists|x: int| 0 <= x < n && !used[x],
{
    if forall|x: int| 0 <= x < n ==> used[x] {
        let oi = ord.map_values(|x: usize| x as int);
        assert(oi.no_duplicates()) by {
            assert forall|a: int, b: int| 0 <= a < oi.len() && 0 <= b < oi.len() && a != b implies oi[a] != oi[b] by {
                assert(ord[a] != ord[b]);
            }
        }
        oi.unique_seq_to_set();
        vstd::seq_lib::seq_to_set_is_finite(oi);
        let range = vstd::set_lib::set_int_range(0, n);
        assert(range.subset_of(oi.to_set())) by {
            assert forall|x: int| range.contains(x) implies oi.to_set().contains(x) by {
                assert(used[x]);
                assert(ord.contains(x as usize));
                let w = choose|w: int| 0 <= w < ord.len() && ord[w] == x as usize;
                assert(oi[w] == x);
            }
        }
        vstd::set_lib::lemma_int_range(0, n);
        vstd::set_lib::lemma_len_subset(range, oi.to_set());
    }
}

/// Relies on `SliceRandom::shuffle` of rand with `thread_rng`: the
/// positions are permuted in place, none added or dropped.
#[verifier::external_body]
fn shuffle_positions(v: &mut Vec<usize>)
    ensures
        final(v)@.to_multiset() == old(v)@.to_multiset(),
{
    v.shuffle(&mut rand::thread_rng());
}

/// The positions `0..n` in order.
pub fn identity_order(n: usize) -> (r: Vec<usize>)
    ensures
        r@.len() == n,
        forall|i: int| 0 <= i < n ==> r@[i] == i,
{
    let mut r: Vec<usize> = Vec::new();
    let mut i: usize = 0;
    while i < n
        invariant
            i <= n,
            r@.len() == i,
            forall|j: int| 0 <= j < i ==> r@[j] == j,
        decreases n - i,
    {
        r.push(i);
        i = i + 1;
    }
    r
}

/// A permutation of the identity ordering is an ordering.
pub proof fn lemma_permuted_identity(s: Seq<usize>, t: Seq<usize>, n: int)
    requires
        s.len() == n,
        forall|i: int| 0 <= i < n ==> s[i] == i,
        t.to_multiset() == s.to_multiset(),
    ensures
        is_order(t, n),
{
    assert(s.no_duplicates());
    assert(t.to_multiset().len() == s.to_multiset().len());
    vstd::seq_lib::to_multiset_len(t);
    vstd::seq_lib::to_multiset_len(s);
    assert(t.len() == n);
    s.lemma_multiset_has_no_duplicates();
    t.lemma_multiset_has_no_duplicates_conv();
    assert forall|i: int| 0 <= i < t.len() implies t[i] < n by {
        assert(t.contains(t[i]));
        assert(t.to_multiset().count(t[i]) > 0);
        assert(s.contains(t[i]));
    }
}

/// A random ordering of the positions `0..n`.
pub fn shuffled_order(n: usize) -> (r: Vec<usize>)
    ensures
        is_order(r@, n as int),
{
    let mut v = identity_order(n);
    let ghost s = v@;
    shuffle_positions(&mut v);
    proof {
        lemma_permuted_identity(s, v@, n as int);
    }
    v
}

/// Checks that `o` orders the positions `0..n`.
pub fn check_order(o: &Vec<usize>, n: usize) -> (r: bool)
    ensures
        r == is_order(o@, n as int),
{
    if o.len() != n {
        return false;
    }
    let mut i: usize = 0;
    while i < o.len()
        invariant
            o@.len() == n,
            i <= n,
            forall|a: int| 0 <= a < i ==> o@[a] < n,
            forall|a: int, b: int| 0 <= a < b < i ==> o@[a] != o@[b],
        decreases n - i,
    {
        if o[i] >= n {
            return false;
        }
        let mut j: usize = 0;
        while j < i
            invariant
                o@.len() == n,
                j <= i < n,
                forall|a: int| 0 <= a < j ==> o@[a] != o@[i as int],
            decreases i - j,
        {
            if o[j] == o[i] {
                return false;
            }
            j = j + 1;
        }
        i = i + 1;
    }
    true
}

impl<'a> FortuneSplitter<'a> {
    pub closed spec fn data(&self) -> FortuneDataInner {
        self.fortune_data.inner()
    }

    pub closed spec fn data_wf(&self) -> bool {
        self.fortune_data.wf()
    }

    pub fn new(fortune_data: &'a FortuneData) -> (r: Self)
        requires
            fortune_data.wf(),
        ensures
            r.data() == fortune_data.inner(),
            r.data_wf(),
    {
        FortuneSplitter { fortune_data }
    }

    /// The number of luck levels in the registry.
    pub fn luck_level_count(&self) -> (r: usize)
        ensures
            r == self.data().settings.luck_levels@.len(),
    {
        self.fortune_data.luck_level_count()
    }

    /// One random ordering per category of its texts for luck level `key`.
    pub fn get_shuffled_fortunes_per_category(&self, luck_level_key: &String) -> (r: Result<Vec<Vec<usize>>, AllocError>)
        requires
            self.data_wf(),
        ensures
            r.is_ok() == forall|c: int|
                0 <= c < self.data().fortunes_per_category@.len() ==> pairs_map(
                    (#[trigger] self.data().fortunes_per_category@[c]).1@,
                ).contains_key(luck_level_key@),
            r is Ok ==> orders_fit(self.data(), luck_level_key@, r->Ok_0@.map_values(|o: Vec<usize>| o@)),
    {
        let n = self.fortune_data.category_count();
        let mut orders: Vec<Vec<usize>> = Vec::new();
        let mut c: usize = 0;
        while c < n
            invariant
                self.data_wf(),
                n == self.data().fortunes_per_category@.len(),
                c <= n,
                orders@.len() == c,
                forall|j: int| 0 <= j < c ==> pairs_map((#[trigger] self.data().fortunes_per_category@[j]).1@).contains_key(luck_level_key@),
                forall|j: int| 0 <= j < c ==> is_order((#[trigger] orders@[j])@, texts_for(self.data(), j, luck_level_key@).len() as int),
            decreases n - c,
        {
            let texts = match self.fortune_data.category_texts(c, luck_level_key) {
                Some(t) => t,
                None => {
                    return Err(AllocError::MissingCategoryTexts {
                        category: self.fortune_data.category_name(c).clone(),
                        key: luck_level_key.clone(),
                    });
                },
            };
            orders.push(shuffled_order(texts.len()));
            c = c + 1;
        }
        Ok(orders)
    }

    /// The number of slips for luck level `key`: the fewest texts that any
    /// category has for it.
    pub fn max_nr_of_fortunes(&self, luck_level_key: &String) -> (r: Result<usize, AllocError>)
        requires
            self.data_wf(),
            forall|c: int|
                0 <= c < self.data().fortunes_per_category@.len() ==> pairs_map(
                    (#[trigger] self.data().fortunes_per_category@[c]).1@,
                ).contains_key(luck_level_key@),
        ensures
            r.is_ok() == (self.data().fortunes_per_category@.len() > 0),
            r is Ok ==> r->Ok_0 == slip_count(self.data(), luck_level_key@),
            r is Err ==> r->Err_0 is NoCategories,
    {
        let n = self.fortune_data.category_count();
        if n == 0 {
            return Err(AllocError::NoCategories { key: luck_level_key.clone() });
        }
        let first = self.fortune_data.category_texts(0, luck_level_key);
        let mut m = match first {
            Some(t) => t.len(),
            None => 0,
        };
        let mut c: usize = 1;
        while c < n
            invariant
                self.data_wf(),
                n == self.data().fortunes_per_category@.len(),
                1 <= c <= n,
                m == min_count(self.data(), luck_level_key@, c as int),
                forall|j: int|
                    0 <= j < self.data().fortunes_per_category@.len() ==> pairs_map(
                        (#[trigger] self.data().fortunes_per_category@[j]).1@,
                    ).contains_key(luck_level_key@),
            decreases n - c,
        {
            let len = match self.fortune_data.category_texts(c, luck_level_key) {
                Some(t) => t.len(),
                None => 0,
            };
            if len < m {
                m = len;
            }
            c = c + 1;
        }
        Ok(m)
    }

    /// For each category in order, its text at position `orders[c][idx]`.
    pub fn get_fortune_text_for_single_slip(
        &self,
        luck_level_key: &String,
        orders: &Vec<Vec<usize>>,
        idx: usize,
    ) -> (r: Vec<(String, String)>)
        requires
            self.data_wf(),
            orders_fit(self.data(), luck_level_key@, orders@.map_values(|o: Vec<usize>| o@)),
            forall|c: int|
                0 <= c < self.data().fortunes_per_category@.len() ==> pairs_map(
                    (#[trigger] self.data().fortunes_per_category@[c]).1@,
                ).contains_key(luck_level_key@),
            forall|c: int| 0 <= c < orders@.len() ==> idx < (#[trigger] orders@[c])@.len(),
        ensures
            r@.len() == self.data().fortunes_per_category@.len(),
            keys_unique(r@),
            forall|c: int|
                0 <= c < r@.len() ==> {
                    &&& (#[trigger] r@[c]).0 == self.data().fortunes_per_category@[c].0
                    &&& r@[c].1 == texts_for(self.data(), c, luck_level_key@)[orders@[c]@[idx as int] as int]
                },
    {
        let ghost os = orders@.map_values(|o: Vec<usize>| o@);
        let n = self.fortune_data.category_count();
        let mut r: Vec<(String, String)> = Vec::new();
        let mut c: usize = 0;
        while c < n
            invariant
                self.data_wf(),
                n == self.data().fortunes_per_category@.len(),
                os == orders@.map_values(|o: Vec<usize>| o@),
                orders_fit(self.data(), luck_level_key@, os),
                forall|j: int|
                    0 <= j < self.data().fortunes_per_category@.len() ==> pairs_map(
                        (#[trigger] self.data().fortunes_per_category@[j]).1@,
                    ).contains_key(luck_level_key@),
                forall|j: int| 0 <= j < orders@.len() ==> idx < (#[trigger] orders@[j])@.len(),
                c <= n,
                r@.len() == c,
                forall|j: int|
                    0 <= j < c ==> {
                        &&& (#[trigger] r@[j]).0 == self.data().fortunes_per_category@[j].0
                        &&& r@[j].1 == texts_for(self.data(), j, luck_level_key@)[orders@[j]@[idx as int] as int]
                    },
            decreases n - c,
        {
            let texts = match self.fortune_data.category_texts(c, luck_level_key) {
                Some(t) => t,
                None => {
                    assert(false);
                    return r;
                },
            };
            assert(os[c as int] == orders@[c as int]@);
            assert(is_order(os[c as int], texts_for(self.data(), c as int, luck_level_key@).len() as int));
            let pos = orders[c][idx];
            let text = texts[pos].clone();
            r.push((self.fortune_data.category_name(c).clone(), text));
            c = c + 1;
        }
        proof {
            assert(keys_unique(self.data().fortunes_per_category@));
            assert forall|a: int, b: int| 0 <= a < b < r@.len() implies r@[a].0@ != r@[b].0@ by {
                assert(r@[a].0 == self.data().fortunes_per_category@[a].0);
                assert(r@[b].0 == self.data().fortunes_per_category@[b].0);
            }
        }
        r
    }

    /// Slip `idx` for luck level `key` under the given orderings.
    pub fn get_slip_for_idx(&self, idx: usize, orders: &Vec<Vec<usize>>, luck_level_key: &String) -> (r: Result<
        FortuneSlipTextRef,
        AllocError,
    >)
        requires
            self.data_wf(),
            orders_fit(self.data(), luck_level_key@, orders@.map_values(|o: Vec<usize>| o@)),
            forall|c: int|
                0 <= c < self.data().fortunes_per_category@.len() ==> pairs_map(
                    (#[trigger] self.data().fortunes_per_category@[c]).1@,
                ).contains_key(luck_level_key@),
            forall|c: int| 0 <= c < orders@.len() ==> idx < (#[trigger] orders@[c])@.len(),
        ensures
            r.is_ok() == pairs_map(self.data().settings.luck_levels@).contains_key(luck_level_key@),
            r is Ok ==> slip_dealt(
                self.data(),
                luck_level_key@,
                pairs_map(self.data().settings.luck_levels@)[luck_level_key@],
                orders@.map_values(|o: Vec<usize>| o@),
                idx as int,
                r->Ok_0,
            ),
    {
        let info = match self.fortune_data.luck_level_info(luck_level_key) {
            Some(info) => info,
            None => {
                return Err(AllocError::UnknownLuckLevel { key: luck_level_key.clone() });
            },
        };
        let cat_to_fort = self.get_fortune_text_for_single_slip(luck_level_key, orders, idx);
        let slip = FortuneSlipTextRef {
            header: info.jap.clone(),
            luck_level: info.eng.clone(),
            category_to_fortune: cat_to_fort,
        };
        proof {
            let os = orders@.map_values(|o: Vec<usize>| o@);
            assert forall|c: int| 0 <= c < slip.category_to_fortune@.len() implies
                (#[trigger] slip.category_to_fortune@[c]).1 == texts_for(self.data(), c, luck_level_key@)[os[c][idx as int] as int] by {
                assert(os[c] == orders@[c]@);
            }
        }
        Ok(slip)
    }

    /// The slips for luck level `key` under the given orderings: as many as
    /// the scarcest category allows. Fails when the orderings do not fit the
    /// categories' texts.
    pub fn create_slips_for_luck_with_orders(&self, luck_level_key: &String, orders: &Vec<Vec<usize>>) -> (r: Result<
        Vec<FortuneSlipTextRef>,
        AllocError,
    >)
        requires
            self.data_wf(),
        ensures
            r.is_ok() == {
                &&& forall|c: int|
                    0 <= c < self.data().fortunes_per_category@.len() ==> pairs_map(
                        (#[trigger] self.data().fortunes_per_category@[c]).1@,
                    ).contains_key(luck_level_key@)
                &&& orders_fit(self.data(), luck_level_key@, orders@.map_values(|o: Vec<usize>| o@))
                &&& self.data().fortunes_per_category@.len() > 0
                &&& pairs_map(self.data().settings.luck_levels@).contains_key(luck_level_key@)
            },
            r is Ok ==> slips_dealt(
                self.data(),
                luck_level_key@,
                pairs_map(self.data().settings.luck_levels@)[luck_level_key@],
                orders@.map_values(|o: Vec<usize>| o@),
                r->Ok_0@,
            ),
    {
        let ghost os = orders@.map_values(|o: Vec<usize>| o@);
        let n = self.fortune_data.category_count();
        if orders.len() != n {
            return Err(AllocError::BadOrders);
        }
        let mut c: usize = 0;
        while c < n
            invariant
                self.data_wf(),
                n == self.data().fortunes_per_category@.len(),
                orders@.len() == n,
                os == orders@.map_values(|o: Vec<usize>| o@),
                c <= n,
                forall|j: int| 0 <= j < c ==> pairs_map((#[trigger] self.data().fortunes_per_category@[j]).1@).contains_key(luck_level_key@),
                forall|j: int| 0 <= j < c ==> is_order(#[trigger] os[j], texts_for(self.data(), j, luck_level_key@).len() as int),
            decreases n - c,
        {
            let texts = match self.fortune_data.category_texts(c, luck_level_key) {
                Some(t) => t,
                None => {
                    return Err(AllocError::MissingCategoryTexts {
                        category: self.fortune_data.category_name(c).clone(),
                        key: luck_level_key.clone(),
                    });
                },
            };
            if !check_order(&orders[c], texts.len()) {
                assert(os[c as int] == orders@[c as int]@);
                return Err(AllocError::BadOrders);
            }
            assert(os[c as int] == orders@[c as int]@);
            c = c + 1;
        }
        let nr_fortunes = self.max_nr_of_fortunes(luck_level_key)?;
        proof {
            lemma_min_count_bounds(self.data(), luck_level_key@, n as int);
        }
        let mut slips: Vec<FortuneSlipTextRef> = Vec::new();
        let mut idx: usize = 0;
        while idx < nr_fortunes
            invariant
                self.data_wf(),
                n == self.data().fortunes_per_category@.len(),
                n > 0,
                os == orders@.map_values(|o: Vec<usize>| o@),
                orders_fit(self.data(), luck_level_key@, os),
                forall|j: int| 0 <= j < n ==> pairs_map((#[trigger] self.data().fortunes_per_category@[j]).1@).contains_key(luck_level_key@),
                nr_fortunes == slip_count(self.data(), luck_level_key@),
                forall|j: int| 0 <= j < n ==> nr_fortunes <= #[trigger] texts_for(self.data(), j, luck_level_key@).len(),
                idx <= nr_fortunes,
                slips@.len() == idx,
                pairs_map(self.data().settings.luck_levels@).contains_key(luck_level_key@) || idx == 0,
                forall|i: int|
                    0 <= i < idx ==> slip_dealt(
                        self.data(),
                        luck_level_key@,
                        pairs_map(self.data().settings.luck_levels@)[luck_level_key@],
                        os,
                        i,
                        #[trigger] slips@[i],
                    ),
            decreases nr_fortunes - idx,
        {
            assert forall|j: int| 0 <= j < orders@.len() implies idx < (#[trigger] orders@[j])@.len() by {
                assert(os[j] == orders@[j]@);
                assert(is_order(os[j], texts_for(self.data(), j, luck_level_key@).len() as int));
            }
            let slip = self.get_slip_for_idx(idx, orders, luck_level_key)?;
            slips.push(slip);
            idx = idx + 1;
        }
        if nr_fortunes == 0 && self.fortune_data.luck_level_info(luck_level_key).is_none() {
            return Err(AllocError::UnknownLuckLevel { key: luck_level_key.clone() });
        }
        Ok(slips)
    }

    /// Shuffles every category's texts for luck level `key` and deals them
    /// out: as many slips as the scarcest category allows.
    pub fn create_random_slips_for_luck(&self, luck_level_key: &String) -> (r: Result<Vec<FortuneSlipTextRef>, AllocError>)
        requires
            self.data_wf(),
        ensures
            r.is_ok() == {
                &&& forall|c: int|
                    0 <= c < self.data().fortunes_per_category@.len() ==> pairs_map(
                        (#[trigger] self.data().fortunes_per_category@[c]).1@,
                    ).contains_key(luck_level_key@)
                &&& self.data().fortunes_per_category@.len() > 0
                &&& pairs_map(self.data().settings.luck_levels@).contains_key(luck_level_key@)
            },
            r is Ok ==> exists|os: Seq<Seq<usize>>|
                orders_fit(self.data(), luck_level_key@, os) && slips_dealt(
                    self.data(),
                    luck_level_key@,
                    pairs_map(self.data().settings.luck_levels@)[luck_level_key@],
                    os,
                    r->Ok_0@,
                ) && (forall|i: int, j: int, c: int|
                    0 <= i < r->Ok_0@.len() && 0 <= j < r->Ok_0@.len() && i != j && 0 <= c < self.data().fortunes_per_category@.len()
                        ==> #[trigger] os[c][i] != #[trigger] os[c][j]),
            r is Ok ==> forall|c: int|
                0 <= c < self.data().fortunes_per_category@.len() ==> r->Ok_0@.len() <= #[trigger] texts_for(
                    self.data(),
                    c,
                    luck_level_key@,
                ).len(),
            r is Ok ==> exists|c: int|
                0 <= c < self.data().fortunes_per_category@.len() && r->Ok_0@.len() == #[trigger] texts_for(
                    self.data(),
                    c,
                    luck_level_key@,
                ).len(),
    {
        let orders = self.get_shuffled_fortunes_per_category(luck_level_key)?;
        let r = self.create_slips_for_luck_with_orders(luck_level_key, &orders);
        proof {
            if r is Ok {
                let os = orders@.map_values(|o: Vec<usize>| o@);
                let info = pairs_map(self.data().settings.luck_levels@)[luck_level_key@];
                assert(orders_fit(self.data(), luck_level_key@, os));
                lemma_no_text_reused(self.data(), luck_level_key@, info, os, r->Ok_0@);
                lemma_slip_count_is_minimum(self.data(), luck_level_key@, info, os, r->Ok_0@);
            }
        }
        r
    }

    /// The positions of the registry's luck levels, ordered by their
    /// translated labels; of equal labels, the earlier level comes first.
    pub fn luck_levels_by_label(&self) -> (r: Vec<usize>)
        requires
            self.data_wf(),
        ensures
            is_order(r@, self.data().settings.luck_levels@.len() as int),
            sorted_by_label(self.data(), r@),
    {
        let ghost d = self.data();
        let n = self.fortune_data.luck_level_count();
        let mut used: Vec<bool> = Vec::new();
        let mut k: usize = 0;
        while k < n
            invariant
                k <= n,
                used@.len() == k,
                forall|x: int| 0 <= x < k ==> !used@[x],
            decreases n - k,
        {
            used.push(false);
            k = k + 1;
        }
        let mut ord: Vec<usize> = Vec::new();
        while ord.len() < n
            invariant
                d == self.data(),
                n == d.settings.luck_levels@.len(),
                used@.len() == n,
                ord@.len() <= n,
                ord@.no_duplicates(),
                forall|a: int| 0 <= a < ord@.len() ==> ord@[a] < n && used@[ord@[a] as int],
                forall|x: int| 0 <= x < n && used@[x] ==> ord@.contains(x as usize),
                sorted_by_label(d, ord@),
                forall|a: int, x: int|
                    0 <= a < ord@.len() && 0 <= x < n && !used@[x] ==> !text_lt(level_label(d, x), level_label(d, ord@[a] as int)),
            decreases n - ord@.len(),
        {
            proof {
                lemma_unused_exists(used@, ord@, n as int);
            }
            let mut best: usize = n;
            let mut x: usize = 0;
            while x < n
                invariant
                    d == self.data(),
                    n == d.settings.luck_levels@.len(),
                    used@.len() == n,
                    x <= n,
                    best == n || (best < x && !used@[best as int]),
                    best == n ==> forall|y: int| 0 <= y < x ==> used@[y],
                    best < n ==> forall|y: int| 0 <= y < x && !used@[y] ==> !text_lt(level_label(d, y), level_label(d, best as int)),
                decreases n - x,
            {
                if !used[x] {
                    if best == n {
                        proof {
                            crate::text::lemma_text_lt_irrefl(level_label(d, x as int));
                        }
                        best = x;
                    } else if text_less(
                        self.fortune_data.luck_level_entry(x).1.eng.as_str(),
                        self.fortune_data.luck_level_entry(best).1.eng.as_str(),
                    ) {
                        proof {
                            assert forall|y: int| 0 <= y < x && !used@[y] implies !text_lt(level_label(d, y), level_label(d, x as int)) by {
                                if text_lt(level_label(d, y), level_label(d, x as int)) {
                                    crate::text::lemma_text_lt_trans(level_label(d, y), level_label(d, x as int), level_label(d, best as int));
                                }
                            }
                            crate::text::lemma_text_lt_irrefl(level_label(d, x as int));
                        }
                        best = x;
                    }
                }
                x = x + 1;
            }
            assert(best < n);
            let ghost before = ord@;
            ord.push(best);
            used.set(best, true);
            proof {
                assert forall|a: int| 0 <= a < ord@.len() implies ord@[a] < n && used@[ord@[a] as int] by {
                    if a < before.len() {
                        assert(ord@[a] == before[a]);
                    }
                }
                assert forall|y: int| 0 <= y < n && used@[y] implies ord@.contains(y as usize) by {
                    if y != best {
                        assert(before.contains(y as usize));
                        let w = choose|w: int| 0 <= w < before.len() && before[w] == y as usize;
                        assert(ord@[w] == y as usize);
                    } else {
                        assert(ord@[before.len() as int] == best);
                    }
                }
                assert(ord@.no_duplicates()) by {
                    assert forall|a: int, b: int| 0 <= a < b < ord@.len() implies ord@[a] != ord@[b] by {
                        if b == before.len() {
                            assert(used@[before[a] as int]);
                        }
                    }
                }
            }
        }
        ord
    }

    /// Deals slips for the luck levels at the registry positions `ord`, in
    /// that order, each level shuffled afresh.
    pub fn deal_levels(&self, ord: &Vec<usize>) -> (r: Result<Vec<FortuneSlipTextRef>, AllocError>)
        requires
            self.data_wf(),
            is_order(ord@, self.data().settings.luck_levels@.len() as int),
        ensures
            r.is_ok() == (self.data().fortunes_per_category@.len() > 0 || self.data().settings.luck_levels@.len() == 0),
            r is Ok ==> exists|os: Seq<Seq<Seq<usize>>>|
                levels_dealt(self.data(), ord@, os, r->Ok_0@, self.data().settings.luck_levels@.len() as int),
    {
        let ghost d = self.data();
        let ghost reg = d.settings.luck_levels@;
        let n = self.fortune_data.luck_level_count();
        let mut all_slips: Vec<FortuneSlipTextRef> = Vec::new();
        let ghost mut os: Seq<Seq<Seq<usize>>> = Seq::empty();
        let mut l: usize = 0;
        assert(all_slips@.subrange(0, 0) =~= Seq::<FortuneSlipTextRef>::empty());
        while l < n
            invariant
                self.data_wf(),
                d == self.data(),
                reg == d.settings.luck_levels@,
                n == reg.len(),
                is_order(ord@, n as int),
                l <= n,
                l > 0 ==> d.fortunes_per_category@.len() > 0,
                levels_dealt(d, ord@, os, all_slips@, l as int),
            decreases n - l,
        {
            let level = ord[l];
            let key = &self.fortune_data.luck_level_entry(level).0;
            assert(key@ == level_key(d, level as int));
            proof {
                crate::assoc::lemma_pairs_map_value(reg, level as int);
                crate::assoc::lemma_pairs_map_domain(reg, key@);
                assert forall|c: int| 0 <= c < d.fortunes_per_category@.len() implies pairs_map(
                    (#[trigger] d.fortunes_per_category@[c]).1@).contains_key(key@) by {
                    assert(crate::fortune_data::luck_keys_match(reg, d.fortunes_per_category@[c].1@));
                }
            }
            let slips = match self.create_random_slips_for_luck(key) {
                Ok(slips) => slips,
                Err(e) => {
                    return Err(e);
                },
            };
            let ghost prev = all_slips@;
            let ghost o = choose|o: Seq<Seq<usize>>|
                orders_fit(d, key@, o) && slips_dealt(d, key@, pairs_map(reg)[key@], o, slips@);
            let mut slips = slips;
            all_slips.append(&mut slips);
            proof {
                let m0 = l as int;
                let os2 = os.push(o);
                lemma_offset_monotone(d, ord@, 0, m0);
                assert(all_slips@.subrange(level_offset(d, ord@, m0), level_offset(d, ord@, m0 + 1)) =~= all_slips@.subrange(prev.len() as int, all_slips@.len() as int));
                assert forall|m: int| 0 <= m < m0 + 1 implies {
                    &&& orders_fit(d, level_key(d, ord@[m] as int), #[trigger] os2[m])
                    &&& slips_dealt(
                        d,
                        level_key(d, ord@[m] as int),
                        d.settings.luck_levels@[ord@[m] as int].1,
                        os2[m],
                        all_slips@.subrange(level_offset(d, ord@, m), level_offset(d, ord@, m + 1)),
                    )
                } by {
                    if m < m0 {
                        assert(os2[m] == os[m]);
                        lemma_offset_monotone(d, ord@, m, m + 1);
                        lemma_offset_monotone(d, ord@, m + 1, m0);
                        assert(all_slips@.subrange(level_offset(d, ord@, m), level_offset(d, ord@, m + 1)) =~= prev.subrange(
                            level_offset(d, ord@, m), level_offset(d, ord@, m + 1)));
                    } else {
                        assert(os2[m] == o);
                    }
                }
                os = os2;
            }
            l = l + 1;
        }
        assert(levels_dealt(self.data(), ord@, os, all_slips@, self.data().settings.luck_levels@.len() as int));
        let r: Result<Vec<FortuneSlipTextRef>, AllocError> = Ok(all_slips);
        assert(r->Ok_0@ == all_slips@);
        r
    }

    /// Deals slips for every luck level, each shuffled afresh, with the
    /// levels in the order of their translated labels.
    pub fn shuffle_and_split(&self) -> (r: Result<Vec<FortuneSlipTextRef>, AllocError>)
        requires
            self.data_wf(),
        ensures
            r.is_ok() == (self.data().fortunes_per_category@.len() > 0 || self.data().settings.luck_levels@.len() == 0),
            r is Ok ==> exists|ord: Seq<usize>, os: Seq<Seq<Seq<usize>>>|
                is_order(ord, self.data().settings.luck_levels@.len() as int) && sorted_by_label(self.data(), ord)
                    && levels_dealt(self.data(), ord, os, r->Ok_0@, self.data().settings.luck_levels@.len() as int),
    {
        let ord = self.luck_levels_by_label();
        self.deal_levels(&ord)
    }
}

} // verus!
