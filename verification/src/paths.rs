//! Paths as text, joined the way `Path::join` joins them on Unix.
use crate::text::chars_of;
use vstd::prelude::*;

verus! {

/// `base` joined with `part`: an absolute `part` replaces `base`; otherwise
/// a `/` separates them unless `base` is empty or already ends with one.
pub open spec fn path_join(base: Seq<char>, part: Seq<char>) -> Seq<char> {
    if part.len() > 0 && part[0] == '/' {
        part
    } else if base.len() == 0 || base.last() == '/' {
        base + part
    } else {
        base + seq!['/'] + part
    }
}

/// `Path::join` on text.
pub fn join(base: &str, part: &str) -> (r: String)
    ensures
        r@ == path_join(base@, part@),
{
    let b = chars_of(base);
    let p = chars_of(part);
    let mut out: Vec<char> = Vec::new();
    if p.len() > 0 && p[0] == '/' {
        return crate::text::string_of(p.as_slice());
    }
    out = b.clone();
    assert(out@ == b@);
    if b.len() > 0 && b[b.len() - 1] != '/' {
        out.push('/');
    }
    let ghost o0 = out@;
    let mut k: usize = 0;
    while k < p.len()
        invariant
            k <= p@.len(),
            out@ == o0 + p@.take(k as int),
        decreases p@.len() - k,
    {
        out.push(p[k]);
        k += 1;
        assert(p@.take(k as int) =~= p@.take(k - 1).push(p@[k - 1]));
    }
    assert(p@.take(k as int) =~= p@);
    assert(out@ =~= path_join(base@, part@));
    crate::text::string_of(out.as_slice())
}

} // verus!
