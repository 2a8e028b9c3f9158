//! Where the service keeps its data.
use vstd::prelude::*;

verus! {

broadcast use vstd::string::group_string_axioms;

/// A relative path put after `base` as `PathBuf::join` does: with a `/` between them unless
/// `base` is empty or already ends with one.
pub open spec fn joined_path(base: Seq<char>, rel: Seq<char>) -> Seq<char> {
    if base.len() == 0 || base.last() == '/' { base + rel } else { base + "/"@ + rel }
}

fn join_path(base: &str, rel: &str) -> (r: String)
    ensures
        r@ == joined_path(base@, rel@),
{
    let n = base.unicode_len();
    let mut r = String::from_str(base);
    if n > 0 && base.get_char(n - 1) != '/' {
        r.append("/");
        proof {
            reveal_strlit("/");
        }
    }
    r.append(rel);
    r
}

/// The data directory: the explicit override if there is one; in the installed app the
/// user's `Library/Application Support/Flow Insight` (an error without a home directory);
/// otherwise `data/runtime` in the source tree at `source_dir`.
pub fn data_root(override_dir: Option<String>, home: Option<String>, bundled: bool, source_dir: &str) -> (r: Result<String, String>)
    ensures
        override_dir matches Some(p) ==> r == Ok::<String, String>(p),
        override_dir is None && bundled ==> match home {
            Some(h) => r matches Ok(p) && p@ == joined_path(h@, "Library/Application Support/Flow Insight"@),
            None => r matches Err(m) && m@ == "无法确定用户目录，请设置 FLOW_INSIGHT_DATA_DIR"@,
        },
        override_dir is None && !bundled ==> (r matches Ok(p) && p@ == joined_path(source_dir@, "data/runtime"@)),
{
    match override_dir {
        Some(p) => {
            return Ok(p);
        },
        None => {},
    }
    if bundled {
        return match home {
            Some(h) => Ok(join_path(h.as_str(), "Library/Application Support/Flow Insight")),
            None => Err(String::from_str("无法确定用户目录，请设置 FLOW_INSIGHT_DATA_DIR")),
        };
    }
    Ok(join_path(source_dir, "data/runtime"))
}

} // verus!
