use crate::classify::WalkData;
use crate::paths::{join_path, joined_path, normalize_path, normalized};
use crate::pattern::{regex_compiles, Pattern, PatternError};
use vstd::prelude::*;

verus! {

/// What a host asks of one walk, as plain values.
#[derive(Debug)]
pub struct WalkParams {
    pub target_directory: String,
    pub regex_filter: Option<Vec<String>>,
    pub regex_invert_filter: Option<Vec<String>>,
    /// Paths to skip, taken relative to the target directory.
    pub ignore_directories: Option<Vec<String>>,
    pub use_apparent_size: bool,
}

/// The texts of an optional list, absent meaning empty.
pub open spec fn listed(v: Option<Vec<String>>) -> Seq<String> {
    match v {
        Some(v) => v@,
        None => Seq::empty(),
    }
}

pub open spec fn all_compile(srcs: Seq<String>) -> bool {
    forall|i: int| 0 <= i < srcs.len() ==> regex_compiles(#[trigger] srcs[i]@)
}

/// `ps` holds one pattern per text of `srcs`, in order.
pub open spec fn compiled_from(ps: Seq<Pattern>, srcs: Seq<String>) -> bool {
    &&& ps.len() == srcs.len()
    &&& forall|i: int| 0 <= i < ps.len() ==> #[trigger] ps[i]@ == srcs[i]@
}

/// Compiles every text of the list; fails on the first that the regex
/// crate refuses.
pub fn compile_all(srcs: &Option<Vec<String>>) -> (r: Result<Vec<Pattern>, PatternError>)
    ensures
        r is Ok <==> all_compile(listed(*srcs)),
        r matches Ok(ps) ==> compiled_from(ps@, listed(*srcs)),
        r matches Err(e) ==> exists|i: int|
            0 <= i < listed(*srcs).len() && #[trigger] listed(*srcs)[i]@ == e.pattern@
                && !regex_compiles(e.pattern@),
{
    let mut out: Vec<Pattern> = Vec::new();
    match srcs {
        None => Ok(out),
        Some(v) => {
            let mut i: usize = 0;
            while i < v.len()
                invariant
                    0 <= i <= v@.len(),
                    *srcs == Some(*v),
                    out@.len() == i,
                    forall|j: int| 0 <= j < i ==> #[trigger] out@[j]@ == v@[j]@,
                    forall|j: int| 0 <= j < i ==> regex_compiles(#[trigger] v@[j]@),
                decreases v@.len() - i,
            {
                match Pattern::new(v[i].as_str()) {
                    Ok(p) => out.push(p),
                    Err(e) => {
                        proof {
                            assert(listed(*srcs)[i as int]@ == e.pattern@);
                        }
                        return Err(e);
                    },
                }
                i = i + 1;
            }
            Ok(out)
        },
    }
}

impl WalkData {
    /// The normalised target directory and the walk's configuration: ignore
    /// paths are joined onto the target, filter texts compiled. Fails when
    /// a filter text is not a valid expression.
    pub fn from_params(params: &WalkParams) -> (r: Result<(String, WalkData), PatternError>)
        ensures
            r is Ok <==> (all_compile(listed(params.regex_filter)) && all_compile(
                listed(params.regex_invert_filter),
            )),
            r matches Ok(pair) ==> {
                let (root, data) = pair;
                &&& root@ == normalized(params.target_directory@)
                &&& compiled_from(data.filter_regex@, listed(params.regex_filter))
                &&& compiled_from(data.invert_filter_regex@, listed(params.regex_invert_filter))
                &&& data.use_apparent_size == params.use_apparent_size
                &&& data.ignore_directories@.len() == listed(params.ignore_directories).len()
                &&& forall|i: int|
                    0 <= i < data.ignore_directories@.len() ==> #[trigger] data.ignore_directories@[i]@
                        == joined_path(root@, listed(params.ignore_directories)[i]@)
            },
    {
        let root = normalize_path(params.target_directory.as_str());
        let filter_regex = match compile_all(&params.regex_filter) {
            Ok(ps) => ps,
            Err(e) => return Err(e),
        };
        let invert_filter_regex = match compile_all(&params.regex_invert_filter) {
            Ok(ps) => ps,
            Err(e) => return Err(e),
        };
        let mut ignore_directories: Vec<String> = Vec::new();
        match &params.ignore_directories {
            None => {},
            Some(v) => {
                let mut i: usize = 0;
                while i < v.len()
                    invariant
                        0 <= i <= v@.len(),
                        params.ignore_directories == Some(*v),
                        ignore_directories@.len() == i,
                        forall|j: int|
                            0 <= j < i ==> #[trigger] ignore_directories@[j]@ == joined_path(root@, v@[j]@),
                    decreases v@.len() - i,
                {
                    ignore_directories.push(join_path(root.as_str(), v[i].as_str()));
                    i = i + 1;
                }
            },
        }
        let data = WalkData {
            ignore_directories,
            filter_regex,
            invert_filter_regex,
            use_apparent_size: params.use_apparent_size,
        };
        Ok((root, data))
    }
}

} // verus!
