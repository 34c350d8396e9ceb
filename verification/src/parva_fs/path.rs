//! Path names: the part before the last `/`, the part after it, and the
//! absolute form of a relative one.

use vstd::prelude::*;
use vstd::string::{StringExecFns, StringSliceAdditionalSpecFns};

verus! {

/// The byte `/`.
pub const SLASH: u8 = 47;

/// The index of the last `/` in `p`, or -1 where there is none.
pub open spec fn last_slash(p: Seq<u8>) -> int
    decreases p.len(),
{
    if p.len() == 0 {
        -1
    } else if p.last() == SLASH {
        p.len() - 1
    } else {
        last_slash(p.drop_last())
    }
}

/// The directory part of `p`: what stands before the last `/`; the `/`
/// itself where it is the first byte; all of `p` where it holds no `/`.
pub open spec fn dirname_of(p: Seq<u8>) -> Seq<u8> {
    let i = last_slash(p);
    if i == 0 {
        p.take(1)
    } else if i > 0 {
        p.take(i)
    } else {
        p
    }
}

/// The name part of `p`: what stands after the last `/`; all of `p` where
/// it holds no `/`.
pub open spec fn filename_of(p: Seq<u8>) -> Seq<u8> {
    p.skip(last_slash(p) + 1)
}

/// Whether `p` starts with `/`.
pub open spec fn is_absolute(p: Seq<u8>) -> bool {
    p.len() > 0 && p[0] == SLASH
}

/// The absolute form of `pathname` for one whose current directory is
/// `dir`: an absolute name as it is, any other behind `dir` and a `/`, the
/// `/` left out where `dir` ends in one.
pub open spec fn real_path(pathname: Seq<char>, dir: Seq<char>) -> Seq<char> {
    let d = vstd::utf8::encode_utf8(dir);
    if is_absolute(vstd::utf8::encode_utf8(pathname)) {
        pathname
    } else if d.len() > 0 && d.last() == SLASH {
        dir + pathname
    } else {
        dir + "/"@ + pathname
    }
}

/// The last `/` lies within the name and is a `/`.
pub proof fn lemma_last_slash(p: Seq<u8>)
    ensures
        -1 <= last_slash(p) < p.len(),
        last_slash(p) >= 0 ==> p[last_slash(p)] == SLASH,
    decreases p.len(),
{
    if p.len() != 0 && p.last() != SLASH {
        lemma_last_slash(p.drop_last());
    }
}

/// Where the last `/` of `bytes` is.
fn rfind_slash(bytes: &[u8]) -> (r: Option<usize>)
    ensures
        match r {
            Some(i) => i == last_slash(bytes@),
            None => last_slash(bytes@) == -1,
        },
{
    let mut i = bytes.len();
    assert(bytes@.take(i as int) =~= bytes@);
    while i > 0
        invariant
            i <= bytes@.len(),
            last_slash(bytes@) == last_slash(bytes@.take(i as int)),
        decreases i,
    {
        if bytes[i - 1] == SLASH {
            return Some(i - 1);
        }
        assert(bytes@.take(i as int).drop_last() =~= bytes@.take(i - 1));
        i -= 1;
    }
    None
}

/// In a string, a `/` starts a character and the next byte starts one too.
proof fn lemma_slash_boundary(bytes: Seq<u8>, i: int)
    requires
        vstd::utf8::valid_utf8(bytes),
        0 <= i < bytes.len(),
        bytes[i] == SLASH,
    ensures
        vstd::utf8::is_char_boundary(bytes, i),
        vstd::utf8::is_char_boundary(bytes, i + 1),
{
    vstd::utf8::is_char_boundary_iff_not_is_continuation_byte(bytes, i);
    vstd::utf8::valid_utf8_split(bytes, i);
    let rest = bytes.subrange(i, bytes.len() as int);
    assert(rest[0] == SLASH);
    vstd::utf8::is_char_boundary_start_end_of_seq(rest);
    if rest.len() > 1 {
        reveal_with_fuel(vstd::utf8::is_char_boundary, 2);
        reveal_with_fuel(vstd::utf8::valid_utf8, 2);
        assert(vstd::utf8::is_char_boundary(rest, 1));
        vstd::utf8::is_char_boundary_iff_not_is_continuation_byte(rest, 1);
        vstd::utf8::is_char_boundary_iff_not_is_continuation_byte(bytes, i + 1);
    } else {
        vstd::utf8::is_char_boundary_start_end_of_seq(bytes);
    }
}

/// The directory part of `pathname`.
pub fn dirname(pathname: &str) -> (r: &str)
    ensures
        r.spec_bytes() == dirname_of(pathname.spec_bytes()),
{
    let bytes = pathname.as_bytes();
    let n = bytes.len();
    proof {
        lemma_last_slash(bytes@);
        vstd::utf8::encode_utf8_valid_utf8(pathname@);
        vstd::utf8::is_char_boundary_start_end_of_seq(bytes@);
        if last_slash(bytes@) >= 0 {
            lemma_slash_boundary(bytes@, last_slash(bytes@));
        }
    }
    let i = match rfind_slash(bytes) {
        Some(i) => if i == 0 {
            1
        } else {
            i
        },
        None => n,
    };
    let (head, _) = pathname.split_at(i);
    assert(bytes@.subrange(0, n as int) =~= bytes@);
    head
}

/// The name part of `pathname`.
pub fn filename(pathname: &str) -> (r: &str)
    ensures
        r.spec_bytes() == filename_of(pathname.spec_bytes()),
{
    let bytes = pathname.as_bytes();
    proof {
        lemma_last_slash(bytes@);
        vstd::utf8::encode_utf8_valid_utf8(pathname@);
        vstd::utf8::is_char_boundary_start_end_of_seq(bytes@);
        if last_slash(bytes@) >= 0 {
            lemma_slash_boundary(bytes@, last_slash(bytes@));
        }
    }
    let n = bytes.len();
    let i = match rfind_slash(bytes) {
        Some(i) => {
            assert(i < n);
            i + 1
        },
        None => 0,
    };
    let (_, tail) = pathname.split_at(i);
    tail
}

/// The absolute form of `pathname` for one whose current directory is
/// `dir`.
pub fn realpath(pathname: &str, dir: &str) -> (r: String)
    ensures
        r@ == real_path(pathname@, dir@),
{
    let p = pathname.as_bytes();
    if p.len() > 0 && p[0] == SLASH {
        String::from_str(pathname)
    } else {
        let d = dir.as_bytes();
        let mut r = String::from_str(dir);
        if !(d.len() > 0 && d[d.len() - 1] == SLASH) {
            r.append("/");
        }
        r.append(pathname);
        r
    }
}

} // verus!
