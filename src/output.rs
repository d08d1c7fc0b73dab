use vstd::prelude::*;
use vstd::string::{StrSliceExecFns, StringExecFns};

verus! {

/// `b` adjoined to the path `a`, as a Unix path: an absolute `b` replaces
/// `a`; otherwise a separator goes between them unless `a` is empty or
/// already ends with one.
pub open spec fn join_path(a: Seq<char>, b: Seq<char>) -> Seq<char> {
    if b.len() > 0 && b[0] == '/' {
        b
    } else if a.len() > 0 && a.last() != '/' {
        a + seq!['/'] + b
    } else {
        a + b
    }
}

/// The names adjoined one after the other, starting from the first.
pub open spec fn joined_path(names: Seq<Seq<char>>) -> Seq<char>
    decreases names.len(),
{
    if names.len() == 0 {
        Seq::empty()
    } else if names.len() == 1 {
        names[0]
    } else {
        join_path(joined_path(names.drop_last()), names.last())
    }
}

/// `b` adjoined to the path `a`.
pub fn join_paths(a: &str, b: &str) -> (r: String)
    ensures
        r@ == join_path(a@, b@),
{
    let la = a.unicode_len();
    let lb = b.unicode_len();
    if lb > 0 && b.get_char(0) == '/' {
        return b.to_owned();
    }
    let mut r = a.to_owned();
    if la > 0 && a.get_char(la - 1) != '/' {
        r.append("/");
        proof {
            reveal_strlit("/");
            assert("/"@ =~= seq!['/']);
        }
    }
    r.append(b);
    r
}

/// The names joined into one path, each adjoined to the path of those before it.
pub fn create_path(names: &[&str]) -> (r: String)
    ensures
        r@ == joined_path(names@.map_values(|s: &str| s@)),
{
    let ghost v = names@.map_values(|s: &str| s@);
    if names.len() == 0 {
        return String::new();
    }
    let mut r = names[0].to_owned();
    let mut i: usize = 1;
    while i < names.len()
        invariant
            1 <= i <= names@.len(),
            v == names@.map_values(|s: &str| s@),
            r@ == joined_path(v.take(i as int)),
        decreases names@.len() - i,
    {
        proof {
            assert(v.take(i as int + 1).drop_last() =~= v.take(i as int));
        }
        r = join_paths(r.as_str(), names[i]);
        i = i + 1;
    }
    proof {
        assert(v.take(i as int) =~= v);
    }
    r
}

/// A path that could not be formed in a directory.
pub struct PathError {
    pub dir: String,
}

/// The path of `file` in the directory `dir`.
pub fn p(dir: &String, file: &str) -> (r: Result<String, PathError>)
    ensures
        r matches Ok(s) && s@ == join_path(dir@, file@),
{
    Ok(join_paths(dir.as_str(), file))
}

} // verus!
