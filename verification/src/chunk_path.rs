use vstd::prelude::*;
use vstd::string::{StrSliceExecFns, StringExecFns};
use crate::digest::is_digest;

verus! {

/// One path component appended below a (possibly empty) prefix, with a `/`
/// separator exactly when the prefix is non-empty.
pub open spec fn spec_path_join(prefix: Seq<char>, component: Seq<char>) -> Seq<char> {
    if prefix.len() == 0 {
        component
    } else {
        prefix + "/"@ + component
    }
}

/// The two-character fan-out directory of a digest.
pub open spec fn spec_fanout(hash: Seq<char>) -> Seq<char> {
    hash.subrange(0, 2)
}

/// The store path of a digest below a prefix: the prefix, the first two
/// digest characters, and the digest itself.
pub open spec fn spec_hash_path(prefix: Seq<char>, hash: Seq<char>) -> Seq<char> {
    spec_path_join(spec_path_join(prefix, spec_fanout(hash)), hash)
}

/// Appends `component` below `prefix`.
pub fn join_component(prefix: &str, component: &str) -> (r: String)
    ensures
        r@ == spec_path_join(prefix@, component@),
{
    if prefix.is_empty() {
        component.to_owned()
    } else {
        let mut s = prefix.to_owned();
        s.append("/");
        s.append(component);
        s
    }
}

/// The fan-out directory a blob of this digest is stored under.
pub fn split_hash(hash: &str) -> (r: &str)
    requires
        hash@.len() >= 2,
    ensures
        r@ == spec_fanout(hash@),
{
    hash.substring_char(0, 2)
}

/// The full store path of a blob: prefix, fan-out directory, digest.
pub fn split_hash_as_path(prefix_path: &str, hash: String) -> (r: String)
    requires
        hash@.len() >= 2,
    ensures
        r@ == spec_hash_path(prefix_path@, hash@),
{
    let fan_dir = join_component(prefix_path, hash.as_str().substring_char(0, 2));
    join_component(fan_dir.as_str(), hash.as_str())
}

/// For every 64-character hexadecimal digest the store path is defined and
/// equals the digest's first two characters, a separator, and the digest,
/// below the prefix.
pub proof fn lemma_hash_path_total(prefix: Seq<char>, d: Seq<char>)
    requires
        is_digest(d),
    ensures
        prefix.len() > 0 ==> spec_hash_path(prefix, d) == prefix + "/"@ + d.subrange(0, 2) + "/"@
            + d,
        prefix.len() == 0 ==> spec_hash_path(prefix, d) == d.subrange(0, 2) + "/"@ + d,
{
    assert(spec_fanout(d).len() == 2);
}

} // verus!
