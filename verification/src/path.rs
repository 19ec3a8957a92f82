//! Names of files, as texts with slashes in them.
use crate::text;
use crate::text::{cut_at, cut_before, trimmed_len};
use vstd::prelude::*;
use vstd::string::*;
use vstd::utf8::*;

verus! {

/// The name of a file in a directory.
pub open spec fn path_in(dir: Seq<char>, name: Seq<char>) -> Seq<char> {
    if dir.len() == 0 || dir.last() == '/' {
        dir + name
    } else {
        dir + "/"@ + name
    }
}

/// The name of a file in a directory.
pub fn path_join(dir: &str, name: &str) -> (r: String)
    ensures
        r@ == path_in(dir@, name@),
{
    let mut path: String = dir.to_owned();
    let b = dir.as_bytes();
    let n: usize = b.len();
    proof {
        lemma_last_slash(dir@);
    }
    if n > 0 && b[n - 1] != 47 {
        path.append("/");
    }
    path.append(name);
    path
}

/// A text ends in a slash exactly where its last byte is that of a slash.
proof fn lemma_last_slash(s: Seq<char>)
    ensures
        encode_utf8(s).len() == 0 <==> s.len() == 0,
        s.len() > 0 ==> (encode_utf8(s).last() == 47 <==> s.last() == '/'),
{
    if s.len() > 0 {
        let c = s.last();
        let init = s.drop_last();
        assert(init + seq![c] =~= s);
        text::lemma_encode_concat(init, seq![c]);
        assert(seq![c].drop_first() =~= Seq::empty());
        reveal_with_fuel(encode_utf8, 2);
        let e = encode_utf8(seq![c]);
        assert(e =~= encode_scalar(c as u32));
        lemma_scalar_last(c);
        assert(encode_utf8(s).last() == e.last());
    }
}

/// Only the slash has the byte of the slash last.
proof fn lemma_scalar_last(c: char)
    ensures
        encode_scalar(c as u32).len() > 0,
        encode_scalar(c as u32).last() == 47 <==> c == '/',
{
    let v = c as u32;
    char_is_scalar(c);
    char_u32_cast(c, v);
    assert(0x80u8 | ((v & 0x3f) as u8) != 47) by (bit_vector);
    assert(v <= 0x7f ==> (v & 0x7f) as u8 == v) by (bit_vector);
    assert(last_continuation_byte(v) != 47);
    if v <= 0x7f {
        assert(encode_scalar(v)[0] == v);
    }
}

/// What stands after the last slash.
pub open spec fn after_last_slash(p: Seq<u8>) -> Seq<u8>
    decreases p.len(),
{
    if p.len() == 0 || p.last() == 47 {
        Seq::empty()
    } else {
        after_last_slash(p.drop_last()).push(p.last())
    }
}

/// The last component of a path: what stands after the last slash, trailing
/// slashes and trailing `.` components aside. There is none where the path ends
/// in `..`, or has nothing but slashes and `.`.
pub open spec fn file_name_of(p: Seq<u8>) -> Option<Seq<u8>>
    decreases p.len(),
{
    let q = text::trim_end(p, 47);
    let name = after_last_slash(q);
    if q.len() == 0 || q.len() > p.len() || name == seq![46u8, 46u8] {
        None
    } else if name == seq![46u8] {
        file_name_of(q.drop_last())
    } else {
        Some(name)
    }
}

proof fn lemma_after_last_slash(p: Seq<u8>, k: int)
    requires
        0 <= k <= p.len(),
        k > 0 ==> p[k - 1] == 47,
        forall|i: int| k <= i < p.len() ==> p[i] != 47,
    ensures
        after_last_slash(p) == p.skip(k),
    decreases p.len(),
{
    if p.len() > k {
        assert(p.last() != 47);
        let q = p.drop_last();
        assert forall|i: int| k <= i < q.len() implies q[i] != 47 by {
            assert(q[i] == p[i]);
        }
        lemma_after_last_slash(q, k);
        assert(p.skip(k) =~= q.skip(k).push(p.last()));
    } else {
        assert(p.skip(k) =~= Seq::empty());
    }
}

/// A text without the run of slashes at its end.
fn without_slashes<'a>(p: &'a str) -> (r: &'a str)
    ensures
        r.spec_bytes() == text::trim_end(p.spec_bytes(), 47),
{
    let b = p.as_bytes();
    let n: usize = trimmed_len(b, 47);
    if n == b.len() {
        assert(b@.take(n as int) =~= b@);
        return p;
    }
    cut_before(p, n).0
}

/// The last component of a path, if it has one.
pub fn file_name<'a>(p: &'a str) -> (r: Option<&'a str>)
    ensures
        match r {
            Some(name) => file_name_of(p.spec_bytes()) == Some(name.spec_bytes()),
            None => file_name_of(p.spec_bytes()) is None,
        },
{
    let mut rest: &str = p;
    loop
        invariant
            file_name_of(rest.spec_bytes()) == file_name_of(p.spec_bytes()),
        decreases rest.spec_bytes().len(),
    {
        let q: &str = without_slashes(rest);
        let b = q.as_bytes();
        let n: usize = b.len();
        proof {
            lemma_trimmed_is_shorter(rest.spec_bytes());
        }
        if n == 0 {
            return None;
        }
        let mut start: usize = n;
        while start > 0 && b[start - 1] != 47
            invariant
                start <= n == b@.len(),
                forall|i: int| start <= i < n ==> b@[i] != 47,
            decreases start,
        {
            start = start - 1;
        }
        proof {
            lemma_after_last_slash(b@, start as int);
            assert(b@.skip(0) =~= b@);
        }
        let name: &str = if start == 0 {
            q
        } else {
            cut_at(q, start - 1).1
        };
        let c = name.as_bytes();
        if c.len() == 2 && c[0] == 46 && c[1] == 46 {
            assert(c@ =~= seq![46u8, 46u8]);
            return None;
        }
        if c.len() == 1 && c[0] == 46 {
            assert(c@ =~= seq![46u8]);
            assert(c@ != seq![46u8, 46u8]) by {
                assert(seq![46u8, 46u8].len() == 2);
            }
            assert(b@[n - 1] == c@[0]);
            let shorter: &str = cut_before(q, n - 1).0;
            assert(shorter.spec_bytes() =~= b@.drop_last());
            rest = shorter;
            continue;
        }
        proof {
            if c@ == seq![46u8] {
                assert(seq![46u8].len() == 1);
            }
            if c@ == seq![46u8, 46u8] {
                assert(seq![46u8, 46u8].len() == 2);
            }
        }
        return Some(name);
    }
}

proof fn lemma_trimmed_is_shorter(p: Seq<u8>)
    ensures
        text::trim_end(p, 47).len() <= p.len(),
    decreases p.len(),
{
    if p.len() > 0 && p.last() == 47 {
        lemma_trimmed_is_shorter(p.drop_last());
    }
}

/// A path that leaves the working directory: it starts at the root, or goes up.
pub open spec fn goes_outside(p: Seq<u8>) -> bool {
    ||| p.len() > 0 && p[0] == 47
    ||| text::pieces(p, 47).contains(seq![46u8, 46u8])
}

/// Whether a path leaves the working directory.
pub fn leaves_working_dir(p: &str) -> (r: bool)
    ensures
        r == goes_outside(p.spec_bytes()),
{
    let b = p.as_bytes();
    if b.len() > 0 && b[0] == 47 {
        return true;
    }
    let n: usize = text::count_byte(b, 47, b.len());
    proof {
        text::lemma_pieces_len(b@, 47);
        assert(b@.take(b@.len() as int) =~= b@);
    }
    let mut i: usize = 0;
    while i < n
        invariant
            i <= n,
            text::pieces(p.spec_bytes(), 47).len() == n + 1,
            forall|k: int|
                0 <= k < i ==> #[trigger] text::pieces(p.spec_bytes(), 47)[k] != seq![46u8, 46u8],
        decreases n - i,
    {
        if is_up(text::piece(p, 47, i)) {
            assert(text::pieces(p.spec_bytes(), 47)[i as int] == seq![46u8, 46u8]);
            return true;
        }
        i = i + 1;
    }
    if is_up(text::piece(p, 47, n)) {
        assert(text::pieces(p.spec_bytes(), 47)[n as int] == seq![46u8, 46u8]);
        return true;
    }
    false
}

/// Whether a component is `..`.
fn is_up(component: &str) -> (r: bool)
    ensures
        r == (component.spec_bytes() == seq![46u8, 46u8]),
{
    let c = component.as_bytes();
    if c.len() == 2 && c[0] == 46 && c[1] == 46 {
        assert(c@ =~= seq![46u8, 46u8]);
        return true;
    }
    proof {
        if c@ == seq![46u8, 46u8] {
            assert(seq![46u8, 46u8].len() == 2);
        }
    }
    false
}

// ---------------------------------------------------------------------------
// Laws
// ---------------------------------------------------------------------------
/// A file in a directory stands behind its name and one slash, whether or not
/// the directory is written with one; in no directory it stands alone.
pub proof fn one_slash_stands_before_a_file(dir: Seq<char>, name: Seq<char>)
    ensures
        path_in(Seq::empty(), name) == name,
        path_in(dir.push('/'), name) == dir.push('/') + name,
        dir.len() > 0 && dir.last() != '/' ==> path_in(dir, name) == dir.push('/') + name,
{
    reveal_strlit("/");
    assert("/"@ =~= seq!['/']);
    assert(Seq::<char>::empty() + name =~= name);
    assert(dir + "/"@ =~= dir.push('/'));
}

/// A name: not empty, and neither `.` nor `..` nor with a slash in it.
pub open spec fn is_name(b: Seq<u8>) -> bool {
    &&& b.len() > 0
    &&& forall|i: int| 0 <= i < b.len() ==> #[trigger] b[i] != 47
    &&& !(b.len() == 1 && b[0] == 46)
    &&& !(b.len() == 2 && b[0] == 46 && b[1] == 46)
}

proof fn lemma_not_dots(b: Seq<u8>)
    requires
        is_name(b),
    ensures
        b != seq![46u8],
        b != seq![46u8, 46u8],
{
    if b == seq![46u8] {
        assert(seq![46u8].len() == 1 && b[0] == 46);
    }
    if b == seq![46u8, 46u8] {
        assert(seq![46u8, 46u8].len() == 2 && b[0] == 46 && b[1] == 46);
    }
}

/// The last component of a path is the name behind its last slash, or the path
/// where it has none. Slashes and a `.` behind it change nothing. A path that
/// ends in `..`, and one of slashes alone, has none.
pub proof fn files_are_named_by_their_last_component(dir: Seq<u8>, name: Seq<u8>)
    requires
        is_name(name),
    ensures
        file_name_of(name) == Some(name),
        file_name_of(dir.push(47) + name) == Some(name),
        file_name_of((dir.push(47) + name).push(47)) == Some(name),
        file_name_of((dir.push(47) + name).push(47).push(46)) == Some(name),
        file_name_of(dir.push(47).push(46).push(46)) is None,
        file_name_of(Seq::empty()) is None,
        file_name_of(seq![47u8]) is None,
{
    let p = dir.push(47) + name;
    lemma_not_dots(name);
    assert forall|i: int| dir.len() + 1 <= i < p.len() implies p[i] != 47 by {
        assert(p[i] == name[i - dir.len() - 1]);
    }
    assert(p.last() == name.last() && name[name.len() - 1] != 47);
    assert(text::trim_end(p, 47) == p);
    lemma_after_last_slash(p, dir.len() as int + 1);
    assert(p.skip(dir.len() as int + 1) =~= name);
    assert(text::trim_end(name, 47) == name);
    lemma_after_last_slash(name, 0);
    assert(name.skip(0) =~= name);
    assert(file_name_of(p) == Some(name));
    let q = p.push(47);
    reveal_with_fuel(text::trim_end, 3);
    assert(q.drop_last() =~= p);
    assert(text::trim_end(q, 47) == p);
    assert(file_name_of(q) == Some(name));
    let r = q.push(46);
    assert(text::trim_end(r, 47) == r);
    lemma_after_last_slash(r, q.len() as int);
    assert(r.skip(q.len() as int) =~= seq![46u8]);
    assert(r.drop_last() =~= q);
    assert(seq![46u8] != seq![46u8, 46u8]) by {
        assert(seq![46u8].len() != seq![46u8, 46u8].len());
    }
    assert(file_name_of(r) == file_name_of(q));
    let up = dir.push(47).push(46).push(46);
    assert(text::trim_end(up, 47) == up);
    lemma_after_last_slash(up, dir.len() as int + 1);
    assert(up.skip(dir.len() as int + 1) =~= seq![46u8, 46u8]);
    assert(seq![47u8].drop_last() =~= Seq::empty());
    assert(text::trim_end(seq![47u8], 47) == Seq::<u8>::empty());
}

/// A path leaves the working directory exactly where it starts with a slash, or
/// where one of its components is `..`.
pub proof fn paths_go_outside_by_the_root_or_upwards(parts: Seq<Seq<u8>>)
    requires
        parts.len() > 0,
        text::free_of(parts, 47),
    ensures
        goes_outside(text::joined_by(parts, 47)) <==> {
            ||| parts.len() > 1 && parts[0].len() == 0
            ||| exists|i: int|
                0 <= i < parts.len() && (#[trigger] parts[i]).len() == 2 && parts[i][0] == 46
                    && parts[i][1] == 46
        },
{
    let p = text::joined_by(parts, 47);
    text::cutting_undoes_joining(parts, 47);
    lemma_joined_start(parts);
    if parts.contains(seq![46u8, 46u8]) {
        let i = choose|i: int| 0 <= i < parts.len() && parts[i] == seq![46u8, 46u8];
        assert(parts[i].len() == 2 && parts[i][0] == 46 && parts[i][1] == 46);
    }
    if exists|i: int|
        0 <= i < parts.len() && (#[trigger] parts[i]).len() == 2 && parts[i][0] == 46
            && parts[i][1] == 46 {
        let i = choose|i: int|
            0 <= i < parts.len() && (#[trigger] parts[i]).len() == 2 && parts[i][0] == 46
                && parts[i][1] == 46;
        assert(parts[i] =~= seq![46u8, 46u8]);
    }
}

/// Joined texts start with a slash exactly where the first is empty and not
/// alone.
proof fn lemma_joined_start(parts: Seq<Seq<u8>>)
    requires
        parts.len() > 0,
        text::free_of(parts, 47),
    ensures
        ({
            let p = text::joined_by(parts, 47);
            (p.len() > 0 && p[0] == 47) <==> parts.len() > 1 && parts[0].len() == 0
        }),
        parts[0].len() > 0 ==> text::joined_by(parts, 47).len() > 0,
    decreases parts.len(),
{
    let p = text::joined_by(parts, 47);
    if parts.len() == 1 {
        if p.len() > 0 {
            assert(parts[0][0] != 47);
        }
    } else {
        let init = parts.drop_last();
        assert forall|i: int, j: int| 0 <= i < init.len() && 0 <= j < init[i].len() implies
            #[trigger] init[i][j] != 47 by {
            assert(parts[i][j] != 47);
        }
        lemma_joined_start(init);
        let a = text::joined_by(init, 47);
        assert(init[0] == parts[0]);
        if a.len() == 0 {
            assert(p[0] == 47);
        } else {
            assert(p[0] == a[0]);
        }
        if parts.len() == 2 {
            assert(a == parts[0]);
        }
    }
}

/// A slash, and a slash with a `.` behind it, change nothing of the last
/// component of a path, however often they stand there.
pub proof fn trailing_slashes_and_points_are_not_significant(p: Seq<u8>)
    ensures
        file_name_of(p.push(47)) == file_name_of(p),
        file_name_of(p.push(47).push(46)) == file_name_of(p),
{
    let q = p.push(47);
    let r = q.push(46);
    assert(q.drop_last() =~= p);
    assert(text::trim_end(q, 47) == text::trim_end(p, 47));
    lemma_trimmed_is_shorter(p);
    assert(text::trim_end(r, 47) == r);
    lemma_after_last_slash(r, q.len() as int);
    assert(r.skip(q.len() as int) =~= seq![46u8]);
    assert(seq![46u8] != seq![46u8, 46u8]) by {
        assert(seq![46u8].len() != seq![46u8, 46u8].len());
    }
    assert(r.drop_last() =~= q);
}

} // verus!
