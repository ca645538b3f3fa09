//! Page layout of the output document: slips grouped into template pages,
//! and each rendered front page followed by a backside.
use vstd::prelude::*;
use crate::fortune_splitter::FortuneSlipTextRef;
use crate::paths::{extension_of, path_extension, path_with_extension, with_extension_of};
use crate::svg_keys::NR_SLIPS_PER_PAGE;

verus! {

/// The number of template pages `n` slips take.
pub open spec fn page_count(n: int) -> int {
    (n + NR_SLIPS_PER_PAGE - 1) / (NR_SLIPS_PER_PAGE as int)
}

/// Groups slips into pages of `NR_SLIPS_PER_PAGE`, in order; only the last
/// page may hold fewer.
pub fn chunk_pages(slips: Vec<FortuneSlipTextRef>) -> (r: Vec<Vec<FortuneSlipTextRef>>)
    ensures
        r@.len() == page_count(slips@.len() as int),
        forall|i: int, j: int|
            0 <= i < r@.len() && 0 <= j < r@[i]@.len() ==> i * NR_SLIPS_PER_PAGE + j < slips@.len()
                && #[trigger] r@[i]@[j] == slips@[i * NR_SLIPS_PER_PAGE + j],
        forall|i: int|
            0 <= i < r@.len() ==> (#[trigger] r@[i])@.len() == if i + 1 < r@.len() {
                NR_SLIPS_PER_PAGE as int
            } else {
                slips@.len() - i * NR_SLIPS_PER_PAGE
            },
{
    let ghost orig = slips@;
    let n = slips.len();
    let mut rest = slips;
    let mut pages: Vec<Vec<FortuneSlipTextRef>> = Vec::new();
    let mut page: Vec<FortuneSlipTextRef> = Vec::new();
    let mut taken: usize = 0;
    while rest.len() > 0
        invariant
            n == orig.len(),
            taken + rest@.len() == n,
            rest@ == orig.subrange(taken as int, n as int),
            page@.len() < NR_SLIPS_PER_PAGE,
            taken == pages@.len() * NR_SLIPS_PER_PAGE + page@.len(),
            forall|j: int| 0 <= j < page@.len() ==> page@[j] == orig[pages@.len() * NR_SLIPS_PER_PAGE + j],
            forall|i: int| 0 <= i < pages@.len() ==> (#[trigger] pages@[i])@.len() == NR_SLIPS_PER_PAGE,
            forall|i: int, j: int|
                0 <= i < pages@.len() && 0 <= j < pages@[i]@.len() ==> #[trigger] pages@[i]@[j] == orig[i * NR_SLIPS_PER_PAGE + j],
        decreases rest@.len(),
    {
        let slip = rest.remove(0);
        assert(slip == orig[taken as int]);
        page.push(slip);
        taken = taken + 1;
        assert(rest@ =~= orig.subrange(taken as int, n as int));
        if page.len() == NR_SLIPS_PER_PAGE {
            let full = page;
            page = Vec::new();
            pages.push(full);
        }
    }
    let ghost full_pages = pages@.len() as int;
    let ghost tail = page@.len() as int;
    assert(n == full_pages * 4 + tail);
    if page.len() > 0 {
        assert((full_pages * 4 + tail + 3) / 4 == full_pages + 1) by (nonlinear_arith)
            requires
                0 < tail < 4,
                full_pages >= 0,
        ;
        pages.push(page);
    } else {
        assert((full_pages * 4 + 3) / 4 == full_pages) by (nonlinear_arith)
            requires
                full_pages >= 0,
        ;
    }
    pages
}

/// Relies on `itertools::intersperse`: the items in order, with the
/// separator between each two neighbours.
#[verifier::external_body]
fn intersperse_paths(items: Vec<String>, separator: String) -> (r: Vec<String>)
    ensures
        items@.len() == 0 ==> r@.len() == 0,
        items@.len() > 0 ==> r@.len() == 2 * items@.len() - 1,
        forall|i: int| 0 <= i < items@.len() ==> #[trigger] r@[2 * i] == items@[i],
        forall|i: int| 0 <= i < items@.len() - 1 ==> #[trigger] r@[2 * i + 1] == separator,
{
    itertools::intersperse(items, separator).collect()
}

/// The order of the output pages: each front page followed by the
/// backside, so that every sheet has a back; with no front pages, the
/// backside alone.
pub fn intersperse_pages(front_pages: Vec<String>, backside: String) -> (r: Vec<String>)
    ensures
        front_pages@.len() > 0 ==> r@.len() == 2 * front_pages@.len(),
        front_pages@.len() == 0 ==> r@ == seq![backside],
        forall|i: int| 0 <= i < front_pages@.len() ==> #[trigger] r@[2 * i] == front_pages@[i],
        forall|i: int| 0 <= i < front_pages@.len() ==> #[trigger] r@[2 * i + 1] == backside,
{
    let ghost fronts = front_pages@;
    let mut all = intersperse_paths(front_pages, backside.clone());
    all.push(backside);
    proof {
        if fronts.len() == 0 {
            assert(all@ =~= seq![backside]);
        }
        assert forall|i: int| 0 <= i < fronts.len() implies #[trigger] all@[2 * i + 1] == backside by {
            if i < fronts.len() - 1 {
                assert(all@[2 * i + 1] == all@.drop_last()[2 * i + 1]);
            }
        }
        assert forall|i: int| 0 <= i < fronts.len() implies #[trigger] all@[2 * i] == fronts[i] by {
            assert(all@[2 * i] == all@.drop_last()[2 * i]);
        }
    }
    all
}

/// A markup file to be rendered.
pub struct SvgFile {
    pub path: String,
}

/// Why a path is not accepted as a markup file.
pub enum SvgFileError {
    NotAnSvgFile { path: String },
}

/// The path names an existing regular file whose extension is `svg`.
pub open spec fn valid_svg(path: Seq<char>, is_existing_file: bool) -> bool {
    is_existing_file && extension_of(path) == Some("svg"@)
}

/// Tells whether a path names an existing regular file (as the caller found
/// it) whose extension is `svg`.
pub fn check_valid_and_existing_svg(path: &str, is_existing_file: bool) -> (r: bool)
    ensures
        r == valid_svg(path@, is_existing_file),
{
    if !is_existing_file {
        return false;
    }
    match path_extension(path) {
        Some(ext) => crate::text::same_text(&ext, &String::from_str("svg")),
        None => false,
    }
}

impl SvgFile {
    /// Accepts a path to an existing `.svg` file.
    pub fn new(path: String, is_existing_file: bool) -> (r: Result<SvgFile, SvgFileError>)
        ensures
            r.is_ok() == valid_svg(path@, is_existing_file),
            r is Ok ==> r->Ok_0.path == path,
    {
        if !check_valid_and_existing_svg(path.as_str(), is_existing_file) {
            return Err(SvgFileError::NotAnSvgFile { path });
        }
        Ok(SvgFile { path })
    }

    /// The path of the document rendered beside this file: same name,
    /// extension `pdf`.
    pub fn pdf_path_same_name(&self) -> (r: String)
        ensures
            r@ == with_extension_of(self.path@, "pdf"@),
    {
        proof {
            reveal_strlit("pdf");
        }
        path_with_extension(self.path.as_str(), "pdf")
    }

    /// The path of the file, as text.
    pub fn display(&self) -> (r: String)
        ensures
            r@ == self.path@,
    {
        self.path.clone()
    }
}

} // verus!
