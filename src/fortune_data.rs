//! The fortune catalog: the luck-level registry, the template paths, and the
//! candidate texts of each category for each luck level.
use vstd::prelude::*;
use crate::assoc::{assoc_find, keys_unique, lemma_pairs_map_domain, pair_keys, pairs_map};
use crate::paths::{joined, parent_of, path_join, path_parent};

verus! {

/// The two display labels of a luck level.
pub struct LuckLevelInfo {
    pub jap: String,
    pub eng: String,
}

/// The settings resource: luck-level registry, content files and templates.
pub struct FortuneSettings {
    pub luck_levels: Vec<(String, LuckLevelInfo)>,
    pub fortune_content_files: Vec<String>,
    pub template_front: String,
    pub template_back: String,
}

/// One content file: a category and its texts per luck-level key.
pub struct CategoryFortunes {
    pub category: String,
    pub fortunes: Vec<(String, Vec<String>)>,
}

/// The settings together with the texts of every category.
pub struct FortuneDataInner {
    pub settings: FortuneSettings,
    pub fortunes_per_category: Vec<(String, Vec<(String, Vec<String>)>)>,
}

/// A checked catalog.
pub struct FortuneData {
    fortune_data_inner: FortuneDataInner,
}

/// Why a catalog is rejected.
pub enum CatalogError {
    /// A category's luck-level keys differ from the registry's.
    InconsistentLuckLevels { category: String },
    /// Two content files declare the same category.
    DuplicateCategory { category: String },
    /// The settings path has no parent directory.
    NoParentDirectory,
}

/// The luck-level keys of a category match the registry's.
pub open spec fn luck_keys_match<V, W>(registry: Seq<(String, V)>, fortunes: Seq<(String, W)>) -> bool {
    pairs_map(registry).dom() == pairs_map(fortunes).dom()
}

/// Every category defines exactly the registry's luck-level keys.
pub open spec fn consistent_luck_levels(inner: FortuneDataInner) -> bool {
    forall|c: int|
        0 <= c < inner.fortunes_per_category@.len() ==> luck_keys_match(
            inner.settings.luck_levels@,
            (#[trigger] inner.fortunes_per_category@[c]).1@,
        )
}

/// The maps of the catalog have unique keys.
pub open spec fn maps_wf(inner: FortuneDataInner) -> bool {
    &&& keys_unique(inner.settings.luck_levels@)
    &&& forall|c: int|
        0 <= c < inner.fortunes_per_category@.len() ==> keys_unique(
            (#[trigger] inner.fortunes_per_category@[c]).1@,
        )
}

/// A catalog that passed the checks.
pub open spec fn catalog_valid(inner: FortuneDataInner) -> bool {
    &&& maps_wf(inner)
    &&& keys_unique(inner.fortunes_per_category@)
    &&& consistent_luck_levels(inner)
}

/// The categories of a list of content files, in order.
pub open spec fn contents_categories(contents: Seq<CategoryFortunes>) -> Seq<Seq<char>> {
    contents.map_values(|c: CategoryFortunes| c.category@)
}

/// Every content file's luck-level map has unique keys.
pub open spec fn contents_wf(contents: Seq<CategoryFortunes>) -> bool {
    forall|c: int| 0 <= c < contents.len() ==> keys_unique((#[trigger] contents[c]).fortunes@)
}

/// Fails on the first category whose luck-level keys differ from the
/// registry's.
pub fn check_consistency_luck_levels(fortune_data: &FortuneDataInner) -> (r: Result<(), CatalogError>)
    requires
        maps_wf(*fortune_data),
    ensures
        r.is_ok() == consistent_luck_levels(*fortune_data),
        r is Err ==> r->Err_0 is InconsistentLuckLevels,
{
    let registry = &fortune_data.settings.luck_levels;
    let cats = &fortune_data.fortunes_per_category;
    let mut c: usize = 0;
    while c < cats.len()
        invariant
            maps_wf(*fortune_data),
            registry == &fortune_data.settings.luck_levels,
            cats == &fortune_data.fortunes_per_category,
            c <= cats@.len(),
            forall|j: int| 0 <= j < c ==> luck_keys_match(registry@, (#[trigger] cats@[j]).1@),
        decreases cats@.len() - c,
    {
        let fortunes = &cats[c].1;
        let mut ok = true;
        let mut k: usize = 0;
        while k < registry.len()
            invariant
                registry == &fortune_data.settings.luck_levels,
                k <= registry@.len(),
                ok == forall|j: int| 0 <= j < k ==> pairs_map(fortunes@).contains_key(#[trigger] registry@[j].0@),
            decreases registry@.len() - k,
        {
            if assoc_find(fortunes, &registry[k].0).is_none() {
                ok = false;
            }
            k = k + 1;
        }
        let mut m: usize = 0;
        while m < fortunes.len()
            invariant
                k == registry@.len(),
                m <= fortunes@.len(),
                ok == ((forall|j: int| 0 <= j < k ==> pairs_map(fortunes@).contains_key(#[trigger] registry@[j].0@))
                    && (forall|j: int| 0 <= j < m ==> pairs_map(registry@).contains_key(#[trigger] fortunes@[j].0@))),
            decreases fortunes@.len() - m,
        {
            if assoc_find(registry, &fortunes[m].0).is_none() {
                ok = false;
            }
            m = m + 1;
        }
        proof {
            if ok {
                assert forall|x: Seq<char>| pairs_map(registry@).contains_key(x) implies pairs_map(fortunes@).contains_key(x) by {
                    lemma_pairs_map_domain(registry@, x);
                }
                assert forall|x: Seq<char>| pairs_map(fortunes@).contains_key(x) implies pairs_map(registry@).contains_key(x) by {
                    lemma_pairs_map_domain(fortunes@, x);
                }
                assert(pairs_map(registry@).dom() =~= pairs_map(fortunes@).dom());
            } else {
                if luck_keys_match(registry@, fortunes@) {
                    assert forall|j: int| 0 <= j < registry@.len() implies pairs_map(fortunes@).contains_key(#[trigger] registry@[j].0@) by {
                        lemma_pairs_map_domain(registry@, registry@[j].0@);
                    }
                    assert forall|j: int| 0 <= j < fortunes@.len() implies pairs_map(registry@).contains_key(#[trigger] fortunes@[j].0@) by {
                        lemma_pairs_map_domain(fortunes@, fortunes@[j].0@);
                    }
                }
            }
        }
        if !ok {
            return Err(CatalogError::InconsistentLuckLevels { category: cats[c].0.clone() });
        }
        c = c + 1;
    }
    Ok(())
}

/// Fails when two content files declare the same category.
pub fn check_unique_keys_categories(fortune_data: &FortuneDataInner) -> (r: Result<(), CatalogError>)
    ensures
        r.is_ok() == keys_unique(fortune_data.fortunes_per_category@),
        r is Err ==> r->Err_0 is DuplicateCategory,
{
    let cats = &fortune_data.fortunes_per_category;
    let mut j: usize = 0;
    while j < cats.len()
        invariant
            cats == &fortune_data.fortunes_per_category,
            j <= cats@.len(),
            forall|a: int, b: int| 0 <= a < b < j ==> cats@[a].0@ != cats@[b].0@,
        decreases cats@.len() - j,
    {
        let mut i: usize = 0;
        while i < j
            invariant
                cats == &fortune_data.fortunes_per_category,
                i <= j < cats@.len(),
                forall|a: int| 0 <= a < i ==> cats@[a].0@ != cats@[j as int].0@,
            decreases j - i,
        {
            if cats[i].0.eq(&cats[j].0) {
                return Err(CatalogError::DuplicateCategory { category: cats[j].0.clone() });
            }
            i = i + 1;
        }
        j = j + 1;
    }
    Ok(())
}

/// Runs both catalog checks.
pub fn error_check(fortune_data: &FortuneDataInner) -> (r: Result<(), CatalogError>)
    requires
        maps_wf(*fortune_data),
    ensures
        r.is_ok() == catalog_valid(*fortune_data),
{
    check_consistency_luck_levels(fortune_data)?;
    check_unique_keys_categories(fortune_data)?;
    Ok(())
}

/// Gathers the content files into one list of categories, in file order.
pub fn load_fortune_contents(contents: Vec<CategoryFortunes>) -> (r: Vec<(String, Vec<(String, Vec<String>)>)>)
    ensures
        r@.len() == contents@.len(),
        forall|c: int|
            0 <= c < r@.len() ==> (#[trigger] r@[c]).0 == contents@[c].category && r@[c].1 == contents@[c].fortunes,
{
    let ghost orig = contents@;
    let mut rest = contents;
    let mut r: Vec<(String, Vec<(String, Vec<String>)>)> = Vec::new();
    while rest.len() > 0
        invariant
            r@.len() + rest@.len() == orig.len(),
            rest@ == orig.subrange(r@.len() as int, orig.len() as int),
            forall|c: int| 0 <= c < r@.len() ==> (#[trigger] r@[c]).0 == orig[c].category && r@[c].1 == orig[c].fortunes,
        decreases rest@.len(),
    {
        let item = rest.remove(0);
        r.push((item.category, item.fortunes));
        assert(rest@ =~= orig.subrange(r@.len() as int, orig.len() as int));
    }
    r
}

/// Builds the catalog from its settings and content files, and checks it.
pub fn load_fortune_data(settings: FortuneSettings, contents: Vec<CategoryFortunes>) -> (r: Result<
    FortuneDataInner,
    CatalogError,
>)
    requires
        keys_unique(settings.luck_levels@),
        contents_wf(contents@),
    ensures
        r is Ok ==> catalog_valid(r->Ok_0) && r->Ok_0.settings == settings && pair_keys(
            r->Ok_0.fortunes_per_category@,
        ) == contents_categories(contents@),
        r is Ok ==> forall|c: int|
            0 <= c < contents@.len() ==> (#[trigger] r->Ok_0.fortunes_per_category@[c]).1 == contents@[c].fortunes,
        r.is_ok() == (keys_unique(settings.luck_levels@) && (forall|c: int|
            0 <= c < contents@.len() ==> luck_keys_match(settings.luck_levels@, (#[trigger] contents@[c]).fortunes@))
            && (forall|a: int, b: int| 0 <= a < b < contents@.len() ==> contents@[a].category@ != contents@[b].category@)),
{
    let ghost cs = contents@;
    let fortunes_per_category = load_fortune_contents(contents);
    let fortune_data = FortuneDataInner { settings, fortunes_per_category };
    assert(pair_keys(fortune_data.fortunes_per_category@) =~= contents_categories(cs));
    assert(maps_wf(fortune_data)) by {
        assert forall|c: int| 0 <= c < fortune_data.fortunes_per_category@.len() implies keys_unique(
            (#[trigger] fortune_data.fortunes_per_category@[c]).1@) by {
            assert(fortune_data.fortunes_per_category@[c].1 == cs[c].fortunes);
        }
    }
    proof {
        assert(consistent_luck_levels(fortune_data) == (forall|c: int|
            0 <= c < cs.len() ==> luck_keys_match(fortune_data.settings.luck_levels@, (#[trigger] cs[c]).fortunes@))) by {
            if consistent_luck_levels(fortune_data) {
                assert forall|c: int| 0 <= c < cs.len() implies luck_keys_match(fortune_data.settings.luck_levels@, (#[trigger] cs[c]).fortunes@) by {
                    assert(fortune_data.fortunes_per_category@[c].1 == cs[c].fortunes);
                }
            }
        }
        assert(keys_unique(fortune_data.fortunes_per_category@) == (forall|a: int, b: int|
            0 <= a < b < cs.len() ==> cs[a].category@ != cs[b].category@)) by {
            if keys_unique(fortune_data.fortunes_per_category@) {
                assert forall|a: int, b: int| 0 <= a < b < cs.len() implies cs[a].category@ != cs[b].category@ by {
                    assert(fortune_data.fortunes_per_category@[a].0 == cs[a].category);
                    assert(fortune_data.fortunes_per_category@[b].0 == cs[b].category);
                }
            }
        }
    }
    error_check(&fortune_data)?;
    Ok(fortune_data)
}

/// Tells whether a settings resource and its content files make a valid
/// catalog.
pub fn check_if_fortune_settings_are_valid(settings: FortuneSettings, contents: Vec<CategoryFortunes>) -> (r:
    Result<(), CatalogError>)
    requires
        keys_unique(settings.luck_levels@),
        contents_wf(contents@),
    ensures
        r.is_ok() == ((forall|c: int|
            0 <= c < contents@.len() ==> luck_keys_match(settings.luck_levels@, (#[trigger] contents@[c]).fortunes@))
            && (forall|a: int, b: int| 0 <= a < b < contents@.len() ==> contents@[a].category@ != contents@[b].category@)),
{
    FortuneData::open(settings, contents)?;
    Ok(())
}

/// Resolves the content-file and template paths of the settings against
/// the directory of the settings file at `path`.
pub fn update_settings_paths(path: &str, fortune_settings: &mut FortuneSettings) -> (r: Result<(), CatalogError>)
    ensures
        r.is_ok() == parent_of(path@).is_some(),
        r is Err ==> *final(fortune_settings) == *old(fortune_settings),
        r is Ok ==> {
            let parent = parent_of(path@)->Some_0;
            let s0 = *old(fortune_settings);
            let s1 = *final(fortune_settings);
            &&& s1.luck_levels == s0.luck_levels
            &&& s1.fortune_content_files@.len() == s0.fortune_content_files@.len()
            &&& forall|i: int|
                0 <= i < s0.fortune_content_files@.len() ==> (#[trigger] s1.fortune_content_files@[i])@ == joined(
                    parent,
                    s0.fortune_content_files@[i]@,
                )
            &&& s1.template_front@ == joined(parent, s0.template_front@)
            &&& s1.template_back@ == joined(parent, s0.template_back@)
        },
{
    let parent_path = match path_parent(path) {
        Some(p) => p,
        None => {
            return Err(CatalogError::NoParentDirectory);
        },
    };
    let ghost files0 = fortune_settings.fortune_content_files@;
    let mut i: usize = 0;
    while i < fortune_settings.fortune_content_files.len()
        invariant
            fortune_settings.luck_levels == old(fortune_settings).luck_levels,
            fortune_settings.template_front == old(fortune_settings).template_front,
            fortune_settings.template_back == old(fortune_settings).template_back,
            files0 == old(fortune_settings).fortune_content_files@,
            fortune_settings.fortune_content_files@.len() == files0.len(),
            i <= files0.len(),
            parent_path@ == parent_of(path@)->Some_0,
            forall|j: int| 0 <= j < i ==> (#[trigger] fortune_settings.fortune_content_files@[j])@ == joined(parent_path@, files0[j]@),
            forall|j: int| i <= j < files0.len() ==> (#[trigger] fortune_settings.fortune_content_files@[j]) == files0[j],
        decreases files0.len() - i,
    {
        let joined_path = path_join(parent_path.as_str(), fortune_settings.fortune_content_files[i].as_str());
        fortune_settings.fortune_content_files.set(i, joined_path);
        i = i + 1;
    }
    fortune_settings.template_back = path_join(parent_path.as_str(), fortune_settings.template_back.as_str());
    fortune_settings.template_front = path_join(parent_path.as_str(), fortune_settings.template_front.as_str());
    Ok(())
}

impl FortuneData {
    pub closed spec fn inner(&self) -> FortuneDataInner {
        self.fortune_data_inner
    }

    pub open spec fn wf(&self) -> bool {
        catalog_valid(self.inner())
    }

    /// Builds and checks the catalog.
    pub fn open(settings: FortuneSettings, contents: Vec<CategoryFortunes>) -> (r: Result<FortuneData, CatalogError>)
        requires
            keys_unique(settings.luck_levels@),
            contents_wf(contents@),
        ensures
            r is Ok ==> r->Ok_0.wf() && r->Ok_0.inner().settings == settings && pair_keys(
                r->Ok_0.inner().fortunes_per_category@,
            ) == contents_categories(contents@),
            r is Ok ==> forall|c: int|
                0 <= c < contents@.len() ==> (#[trigger] r->Ok_0.inner().fortunes_per_category@[c]).1 == contents@[c].fortunes,
            r.is_ok() == ((forall|c: int|
                0 <= c < contents@.len() ==> luck_keys_match(settings.luck_levels@, (#[trigger] contents@[c]).fortunes@))
                && (forall|a: int, b: int| 0 <= a < b < contents@.len() ==> contents@[a].category@ != contents@[b].category@)),
    {
        let fortune_data_inner = load_fortune_data(settings, contents)?;
        Ok(FortuneData { fortune_data_inner })
    }

    /// The settings of the catalog.
    pub fn get_settings(&self) -> (r: &FortuneSettings)
        ensures
            *r == self.inner().settings,
    {
        &self.fortune_data_inner.settings
    }

    /// The candidate texts of a category for a luck level.
    pub fn get_fortune_text(&self, category: &String, luck_level_key: &String) -> (r: Option<&Vec<String>>)
        requires
            self.wf(),
        ensures
            r.is_some() == (pairs_map(self.inner().fortunes_per_category@).contains_key(category@)
                && pairs_map(pairs_map(self.inner().fortunes_per_category@)[category@]@).contains_key(luck_level_key@)),
            r.is_some() ==> *r->Some_0 == pairs_map(pairs_map(self.inner().fortunes_per_category@)[category@]@)[luck_level_key@],
    {
        let cats = &self.fortune_data_inner.fortunes_per_category;
        match assoc_find(cats, category) {
            Some(c) => {
                let per_luck = &cats[c].1;
                assert(keys_unique(per_luck@));
                match assoc_find(per_luck, luck_level_key) {
                    Some(k) => Some(&per_luck[k].1),
                    None => None,
                }
            },
            None => None,
        }
    }

    /// The categories, in content-file order.
    pub fn get_categories(&self) -> (r: Vec<String>)
        ensures
            r@.map_values(|s: String| s@) == pair_keys(self.inner().fortunes_per_category@),
    {
        let cats = &self.fortune_data_inner.fortunes_per_category;
        let mut r: Vec<String> = Vec::new();
        let mut i: usize = 0;
        while i < cats.len()
            invariant
                cats == &self.fortune_data_inner.fortunes_per_category,
                i <= cats@.len(),
                r@.len() == i,
                forall|j: int| 0 <= j < i ==> (#[trigger] r@[j])@ == cats@[j].0@,
            decreases cats@.len() - i,
        {
            r.push(cats[i].0.clone());
            i = i + 1;
        }
        assert(r@.map_values(|s: String| s@) =~= pair_keys(cats@));
        r
    }

    /// The luck-level keys of the registry, in registry order.
    pub fn get_luck_level_keys(&self) -> (r: Vec<String>)
        ensures
            r@.map_values(|s: String| s@) == pair_keys(self.inner().settings.luck_levels@),
    {
        let levels = &self.fortune_data_inner.settings.luck_levels;
        let mut r: Vec<String> = Vec::new();
        let mut i: usize = 0;
        while i < levels.len()
            invariant
                levels == &self.fortune_data_inner.settings.luck_levels,
                i <= levels@.len(),
                r@.len() == i,
                forall|j: int| 0 <= j < i ==> (#[trigger] r@[j])@ == levels@[j].0@,
            decreases levels@.len() - i,
        {
            r.push(levels[i].0.clone());
            i = i + 1;
        }
        assert(r@.map_values(|s: String| s@) =~= pair_keys(levels@));
        r
    }

    /// The number of categories.
    pub fn category_count(&self) -> (r: usize)
        ensures
            r == self.inner().fortunes_per_category@.len(),
    {
        self.fortune_data_inner.fortunes_per_category.len()
    }

    /// The name of category `c`.
    pub fn category_name(&self, c: usize) -> (r: &String)
        requires
            c < self.inner().fortunes_per_category@.len(),
        ensures
            *r == self.inner().fortunes_per_category@[c as int].0,
    {
        &self.fortune_data_inner.fortunes_per_category[c].0
    }

    /// The texts of category `c` for luck level `key`.
    pub fn category_texts(&self, c: usize, key: &String) -> (r: Option<&Vec<String>>)
        requires
            self.wf(),
            c < self.inner().fortunes_per_category@.len(),
        ensures
            r.is_some() == pairs_map(self.inner().fortunes_per_category@[c as int].1@).contains_key(key@),
            r.is_some() ==> *r->Some_0 == pairs_map(self.inner().fortunes_per_category@[c as int].1@)[key@],
    {
        let per_luck = &self.fortune_data_inner.fortunes_per_category[c].1;
        assert(keys_unique(per_luck@));
        match assoc_find(per_luck, key) {
            Some(k) => Some(&per_luck[k].1),
            None => None,
        }
    }

    /// The labels of luck level `key`.
    pub fn luck_level_info(&self, key: &String) -> (r: Option<&LuckLevelInfo>)
        requires
            self.wf(),
        ensures
            r.is_some() == pairs_map(self.inner().settings.luck_levels@).contains_key(key@),
            r.is_some() ==> *r->Some_0 == pairs_map(self.inner().settings.luck_levels@)[key@],
    {
        let levels = &self.fortune_data_inner.settings.luck_levels;
        match assoc_find(levels, key) {
            Some(k) => Some(&levels[k].1),
            None => None,
        }
    }

    /// The number of luck levels in the registry.
    pub fn luck_level_count(&self) -> (r: usize)
        ensures
            r == self.inner().settings.luck_levels@.len(),
    {
        self.fortune_data_inner.settings.luck_levels.len()
    }

    /// Luck level `l` of the registry: its key and labels.
    pub fn luck_level_entry(&self, l: usize) -> (r: &(String, LuckLevelInfo))
        requires
            l < self.inner().settings.luck_levels@.len(),
        ensures
            *r == self.inner().settings.luck_levels@[l as int],
    {
        &self.fortune_data_inner.settings.luck_levels[l]
    }
}

} // verus!
