//! Length-prefixed binary encoding of a trie subtree, used to persist one
//! shard. Layout of a node: path count (u64 LE), then each path as character
//! count (u64 LE) followed by its characters (each a u32 LE scalar value),
//! then child count (u64 LE), then each child as its character (u32 LE)
//! followed by the child node, recursively.
use vstd::prelude::*;

verus! {

use crate::data::{Node, NodeView, children_view, lemma_children_view};
use vstd::bytes::{
    spec_u32_from_le_bytes,
    spec_u32_to_le_bytes,
    spec_u64_from_le_bytes,
    spec_u64_to_le_bytes,
    u32_from_le_bytes,
    u32_to_le_bytes,
    u64_from_le_bytes,
    u64_to_le_bytes,
};
use vstd::slice::slice_subrange;
use vstd::string::StrSliceExecFns;
use vstd::utf8::is_scalar;

/// Relies on char::from_u32 of std: it returns the character with scalar
/// value `u` exactly when `u` is a Unicode scalar value (not a surrogate and
/// at most 0x10FFFF), and `None` otherwise.
pub assume_specification[ char::from_u32 ](u: u32) -> (r: Option<char>)
    ensures
        r is Some <==> is_scalar(u),
        r matches Some(c) ==> c as u32 == u,
;

/// Relies on String::push of std: it appends the given character to the end
/// of the string.
pub assume_specification[ String::push ](s: &mut String, c: char)
    ensures
        final(s)@ == old(s)@.push(c),
;

/// The bytes of `x`, little-endian.
pub open spec fn enc_u64(x: u64) -> Seq<u8> {
    spec_u64_to_le_bytes(x)
}

/// The bytes of a character: its scalar value, little-endian.
pub open spec fn enc_char(c: char) -> Seq<u8> {
    spec_u32_to_le_bytes(c as u32)
}

/// The characters of `s`, each as four bytes, in order.
pub open spec fn enc_chars(s: Seq<char>) -> Seq<u8>
    decreases s.len(),
{
    if s.len() == 0 {
        Seq::empty()
    } else {
        enc_char(s[0]) + enc_chars(s.drop_first())
    }
}

/// A string: its character count, then its characters.
pub open spec fn enc_str(s: Seq<char>) -> Seq<u8> {
    enc_u64(s.len() as u64) + enc_chars(s)
}

/// A path list: each path in order, as a string.
pub open spec fn enc_paths(ps: Seq<Seq<char>>) -> Seq<u8>
    decreases ps.len(),
{
    if ps.len() == 0 {
        Seq::empty()
    } else {
        enc_str(ps[0]) + enc_paths(ps.drop_first())
    }
}

/// A child list: each child in order, as its character then its node.
pub open spec fn enc_children(s: Seq<(char, NodeView)>) -> Seq<u8>
    decreases s,
{
    if s.len() == 0 {
        Seq::empty()
    } else {
        enc_char(s[0].0) + enc_node(s[0].1) + enc_children(s.drop_first())
    }
}

/// A whole node: its path list behind its count, then its child list behind
/// its count.
pub open spec fn enc_node(n: NodeView) -> Seq<u8>
    decreases n,
{
    enc_u64(n.paths.len() as u64) + enc_paths(n.paths) + enc_u64(n.children.len() as u64)
        + enc_children(n.children)
}

/// The u64 at `pos`, when eight bytes are there.
pub open spec fn dec_u64(b: Seq<u8>, pos: int) -> Option<u64> {
    if 0 <= pos && pos + 8 <= b.len() {
        Some(spec_u64_from_le_bytes(b.subrange(pos, pos + 8)))
    } else {
        None
    }
}

/// The character at `pos`, when four bytes are there and they hold a Unicode
/// scalar value.
pub open spec fn dec_char(b: Seq<u8>, pos: int) -> Option<char> {
    if 0 <= pos && pos + 4 <= b.len() {
        let u = spec_u32_from_le_bytes(b.subrange(pos, pos + 4));
        if is_scalar(u) {
            Some(u as char)
        } else {
            None
        }
    } else {
        None
    }
}

/// `n` characters from `pos`, and the position after them.
pub open spec fn dec_chars(b: Seq<u8>, pos: int, n: nat) -> Option<(Seq<char>, int)>
    decreases n,
{
    if n == 0 {
        Some((Seq::empty(), pos))
    } else {
        match dec_char(b, pos) {
            None => None,
            Some(c) => match dec_chars(b, pos + 4, (n - 1) as nat) {
                None => None,
                Some((s, p)) => Some((seq![c] + s, p)),
            },
        }
    }
}

/// A counted string from `pos`, and the position after it.
pub open spec fn dec_str(b: Seq<u8>, pos: int) -> Option<(Seq<char>, int)> {
    match dec_u64(b, pos) {
        None => None,
        Some(n) => dec_chars(b, pos + 8, n as nat),
    }
}

/// `n` counted strings from `pos`, and the position after them.
pub open spec fn dec_paths(b: Seq<u8>, pos: int, n: nat) -> Option<(Seq<Seq<char>>, int)>
    decreases n,
{
    if n == 0 {
        Some((Seq::empty(), pos))
    } else {
        match dec_str(b, pos) {
            None => None,
            Some((s, p)) => match dec_paths(b, p, (n - 1) as nat) {
                None => None,
                Some((ss, p2)) => Some((seq![s] + ss, p2)),
            },
        }
    }
}

/// `n` children from `pos`, and the position after them. A child that
/// consumes no bytes marks corrupt input.
pub open spec fn dec_children(b: Seq<u8>, pos: int, n: nat) -> Option<
    (Seq<(char, NodeView)>, int),
>
    decreases b.len() - pos,
    when 0 <= pos <= b.len()
{
    if n == 0 {
        Some((Seq::empty(), pos))
    } else {
        match dec_char(b, pos) {
            None => None,
            Some(c) => match dec_node(b, pos + 4) {
                None => None,
                Some((nd, p)) => if p <= pos + 4 || p > b.len() {
                    None
                } else {
                    match dec_children(b, p, (n - 1) as nat) {
                        None => None,
                        Some((rest, p2)) => Some((seq![(c, nd)] + rest, p2)),
                    }
                },
            },
        }
    }
}

/// A node from `pos`, and the position after it.
pub open spec fn dec_node(b: Seq<u8>, pos: int) -> Option<(NodeView, int)>
    decreases b.len() - pos,
    when 0 <= pos <= b.len()
{
    match dec_u64(b, pos) {
        None => None,
        Some(pc) => match dec_paths(b, pos + 8, pc as nat) {
            None => None,
            Some((paths, p1)) => if p1 < pos + 8 || p1 > b.len() {
                None
            } else {
                match dec_u64(b, p1) {
                    None => None,
                    Some(cc) => match dec_children(b, p1 + 8, cc as nat) {
                        None => None,
                        Some((children, p2)) => Some((NodeView { children, paths }, p2)),
                    },
                }
            },
        },
    }
}

/// Sizes bounded by `u64`, recursively: what an in-memory tree always
/// satisfies, and what the length prefixes can record.
pub open spec fn bounded_node(n: NodeView) -> bool
    decreases n,
{
    &&& n.paths.len() <= u64::MAX
    &&& (forall|i: int| 0 <= i < n.paths.len() ==> (#[trigger] n.paths[i]).len() <= u64::MAX)
    &&& n.children.len() <= u64::MAX
    &&& (forall|i: int| 0 <= i < n.children.len() ==> bounded_node((#[trigger] n.children[i]).1))
}

/// Encoded characters take four bytes each.
pub proof fn lemma_enc_chars_len(s: Seq<char>)
    ensures
        enc_chars(s).len() == 4 * s.len(),
    decreases s.len(),
{
    vstd::bytes::lemma_auto_spec_u32_to_from_le_bytes();
    if s.len() > 0 {
        lemma_enc_chars_len(s.drop_first());
    }
}

/// Reading eight bytes that encode `x` yields `x`.
pub proof fn lemma_dec_u64_enc(b: Seq<u8>, pos: int, x: u64)
    requires
        0 <= pos,
        pos + 8 <= b.len(),
        b.subrange(pos, pos + 8) == enc_u64(x),
    ensures
        dec_u64(b, pos) == Some(x),
{
    vstd::bytes::lemma_auto_spec_u64_to_from_le_bytes();
}

/// Reading four bytes that encode `c` yields `c`.
pub proof fn lemma_dec_char_enc(b: Seq<u8>, pos: int, c: char)
    requires
        0 <= pos,
        pos + 4 <= b.len(),
        b.subrange(pos, pos + 4) == enc_char(c),
    ensures
        dec_char(b, pos) == Some(c),
{
    vstd::bytes::lemma_auto_spec_u32_to_from_le_bytes();
    vstd::utf8::char_is_scalar(c);
    let u = spec_u32_from_le_bytes(b.subrange(pos, pos + 4));
    assert(b.subrange(pos, pos + 4) == spec_u32_to_le_bytes(c as u32));
    assert(u == c as u32);
    assert(is_scalar(u));
    vstd::utf8::char_u32_cast(c, u);
    assert((u as char) == c);
}

/// Decoding at the position where encoded characters sit reproduces them and
/// stops right after them.
pub proof fn lemma_dec_chars_enc(b: Seq<u8>, pos: int, s: Seq<char>)
    requires
        0 <= pos,
        pos + enc_chars(s).len() <= b.len(),
        b.subrange(pos, pos + enc_chars(s).len() as int) == enc_chars(s),
    ensures
        dec_chars(b, pos, s.len()) == Some((s, pos + enc_chars(s).len())),
    decreases s.len(),
{
    lemma_enc_chars_len(s);
    if s.len() == 0 {
        assert(dec_chars(b, pos, 0) == Some((Seq::<char>::empty(), pos)));
        assert(s =~= Seq::<char>::empty());
    } else {
        let e = enc_chars(s);
        let head = enc_char(s[0]);
        let tail = enc_chars(s.drop_first());
        vstd::bytes::lemma_auto_spec_u32_to_from_le_bytes();
        lemma_enc_chars_len(s.drop_first());
        assert(b.subrange(pos, pos + 4) =~= head) by {
            assert forall|i: int| 0 <= i < 4 implies b.subrange(pos, pos + 4)[i] == head[i] by {
                assert(b.subrange(pos, pos + e.len() as int)[i] == e[i]);
                assert(e[i] == head[i]);
            }
        }
        lemma_dec_char_enc(b, pos, s[0]);
        assert(b.subrange(pos + 4, pos + 4 + tail.len() as int) =~= tail) by {
            assert forall|i: int|
                0 <= i < tail.len() implies b.subrange(pos + 4, pos + 4 + tail.len() as int)[i]
                == tail[i] by {
                assert(b.subrange(pos, pos + e.len() as int)[i + 4] == e[i + 4]);
                assert(e[i + 4] == tail[i]);
            }
        }
        lemma_dec_chars_enc(b, pos + 4, s.drop_first());
        assert(seq![s[0]] + s.drop_first() =~= s);
    }
}

/// Decoding at the position where an encoded string sits reproduces it and
/// stops right after it.
pub proof fn lemma_dec_str_enc(b: Seq<u8>, pos: int, s: Seq<char>)
    requires
        0 <= pos,
        s.len() <= u64::MAX,
        pos + enc_str(s).len() <= b.len(),
        b.subrange(pos, pos + enc_str(s).len() as int) == enc_str(s),
    ensures
        dec_str(b, pos) == Some((s, pos + enc_str(s).len())),
{
    let e = enc_str(s);
    let cnt = enc_u64(s.len() as u64);
    let body = enc_chars(s);
    vstd::bytes::lemma_auto_spec_u64_to_from_le_bytes();
    lemma_enc_chars_len(s);
    assert(b.subrange(pos, pos + 8) =~= cnt) by {
        assert forall|i: int| 0 <= i < 8 implies b.subrange(pos, pos + 8)[i] == cnt[i] by {
            assert(b.subrange(pos, pos + e.len() as int)[i] == e[i]);
            assert(e[i] == cnt[i]);
        }
    }
    lemma_dec_u64_enc(b, pos, s.len() as u64);
    assert(b.subrange(pos + 8, pos + 8 + body.len() as int) =~= body) by {
        assert forall|i: int|
            0 <= i < body.len() implies b.subrange(pos + 8, pos + 8 + body.len() as int)[i]
            == body[i] by {
            assert(b.subrange(pos, pos + e.len() as int)[i + 8] == e[i + 8]);
            assert(e[i + 8] == body[i]);
        }
    }
    lemma_dec_chars_enc(b, pos + 8, s);
}

/// Decoding at the position where an encoded path list sits reproduces it and
/// stops right after it.
pub proof fn lemma_dec_paths_enc(b: Seq<u8>, pos: int, ps: Seq<Seq<char>>)
    requires
        0 <= pos,
        forall|i: int| 0 <= i < ps.len() ==> (#[trigger] ps[i]).len() <= u64::MAX,
        pos + enc_paths(ps).len() <= b.len(),
        b.subrange(pos, pos + enc_paths(ps).len() as int) == enc_paths(ps),
    ensures
        dec_paths(b, pos, ps.len()) == Some((ps, pos + enc_paths(ps).len())),
    decreases ps.len(),
{
    if ps.len() == 0 {
        assert(ps =~= Seq::<Seq<char>>::empty());
    } else {
        let e = enc_paths(ps);
        let head = enc_str(ps[0]);
        let tail = enc_paths(ps.drop_first());
        assert(b.subrange(pos, pos + head.len() as int) =~= head) by {
            assert forall|i: int|
                0 <= i < head.len() implies b.subrange(pos, pos + head.len() as int)[i]
                == head[i] by {
                assert(b.subrange(pos, pos + e.len() as int)[i] == e[i]);
                assert(e[i] == head[i]);
            }
        }
        lemma_dec_str_enc(b, pos, ps[0]);
        let p1 = pos + head.len();
        assert(b.subrange(p1, p1 + tail.len() as int) =~= tail) by {
            assert forall|i: int|
                0 <= i < tail.len() implies b.subrange(p1, p1 + tail.len() as int)[i]
                == tail[i] by {
                assert(b.subrange(pos, pos + e.len() as int)[i + head.len()] == e[i
                    + head.len()]);
                assert(e[i + head.len()] == tail[i]);
            }
        }
        assert forall|i: int|
            0 <= i < ps.drop_first().len() implies (#[trigger] ps.drop_first()[i]).len()
            <= u64::MAX by {
            assert(ps.drop_first()[i] == ps[i + 1]);
        }
        lemma_dec_paths_enc(b, p1, ps.drop_first());
        assert(seq![ps[0]] + ps.drop_first() =~= ps);
    }
}

/// Decoding at the position where an encoded child list sits reproduces it
/// and stops right after it.
pub proof fn lemma_dec_children_enc(b: Seq<u8>, pos: int, s: Seq<(char, NodeView)>)
    requires
        0 <= pos,
        forall|i: int| 0 <= i < s.len() ==> bounded_node((#[trigger] s[i]).1),
        pos + enc_children(s).len() <= b.len(),
        b.subrange(pos, pos + enc_children(s).len() as int) == enc_children(s),
    ensures
        dec_children(b, pos, s.len()) == Some((s, pos + enc_children(s).len())),
    decreases s,
{
    if s.len() == 0 {
        assert(s =~= Seq::<(char, NodeView)>::empty());
    } else {
        let e = enc_children(s);
        let head = enc_char(s[0].0);
        let node = enc_node(s[0].1);
        let tail = enc_children(s.drop_first());
        vstd::bytes::lemma_auto_spec_u32_to_from_le_bytes();
        vstd::bytes::lemma_auto_spec_u64_to_from_le_bytes();
        assert(b.subrange(pos, pos + 4) =~= head) by {
            assert forall|i: int| 0 <= i < 4 implies b.subrange(pos, pos + 4)[i] == head[i] by {
                assert(b.subrange(pos, pos + e.len() as int)[i] == e[i]);
                assert(e[i] == head[i]);
            }
        }
        lemma_dec_char_enc(b, pos, s[0].0);
        assert(b.subrange(pos + 4, pos + 4 + node.len() as int) =~= node) by {
            assert forall|i: int|
                0 <= i < node.len() implies b.subrange(pos + 4, pos + 4 + node.len() as int)[i]
                == node[i] by {
                assert(b.subrange(pos, pos + e.len() as int)[i + 4] == e[i + 4]);
                assert(e[i + 4] == node[i]);
            }
        }
        lemma_dec_node_enc(b, pos + 4, s[0].1);
        let p = pos + 4 + node.len();
        assert(node.len() >= 16);
        assert(b.subrange(p, p + tail.len() as int) =~= tail) by {
            assert forall|i: int|
                0 <= i < tail.len() implies b.subrange(p, p + tail.len() as int)[i] == tail[i] by {
                assert(b.subrange(pos, pos + e.len() as int)[i + 4 + node.len()] == e[i + 4
                    + node.len()]);
                assert(e[i + 4 + node.len()] == tail[i]);
            }
        }
        assert forall|i: int|
            0 <= i < s.drop_first().len() implies bounded_node(
            (#[trigger] s.drop_first()[i]).1,
        ) by {
            assert(s.drop_first()[i] == s[i + 1]);
        }
        lemma_dec_children_enc(b, p, s.drop_first());
        assert(seq![(s[0].0, s[0].1)] + s.drop_first() =~= s);
    }
}

/// Decoding at the position where an encoded node sits reproduces it and
/// stops right after it: the round-trip law of the shard format.
pub proof fn lemma_dec_node_enc(b: Seq<u8>, pos: int, n: NodeView)
    requires
        0 <= pos,
        bounded_node(n),
        pos + enc_node(n).len() <= b.len(),
        b.subrange(pos, pos + enc_node(n).len() as int) == enc_node(n),
    ensures
        dec_node(b, pos) == Some((n, pos + enc_node(n).len())),
    decreases n,
{
    let e = enc_node(n);
    let cnt_p = enc_u64(n.paths.len() as u64);
    let body_p = enc_paths(n.paths);
    let cnt_c = enc_u64(n.children.len() as u64);
    let body_c = enc_children(n.children);
    vstd::bytes::lemma_auto_spec_u64_to_from_le_bytes();
    assert(b.subrange(pos, pos + 8) =~= cnt_p) by {
        assert forall|i: int| 0 <= i < 8 implies b.subrange(pos, pos + 8)[i] == cnt_p[i] by {
            assert(b.subrange(pos, pos + e.len() as int)[i] == e[i]);
            assert(e[i] == cnt_p[i]);
        }
    }
    lemma_dec_u64_enc(b, pos, n.paths.len() as u64);
    assert(b.subrange(pos + 8, pos + 8 + body_p.len() as int) =~= body_p) by {
        assert forall|i: int|
            0 <= i < body_p.len() implies b.subrange(pos + 8, pos + 8 + body_p.len() as int)[i]
            == body_p[i] by {
            assert(b.subrange(pos, pos + e.len() as int)[i + 8] == e[i + 8]);
            assert(e[i + 8] == body_p[i]);
        }
    }
    lemma_dec_paths_enc(b, pos + 8, n.paths);
    let p1 = pos + 8 + body_p.len();
    assert(b.subrange(p1, p1 + 8) =~= cnt_c) by {
        assert forall|i: int| 0 <= i < 8 implies b.subrange(p1, p1 + 8)[i] == cnt_c[i] by {
            assert(b.subrange(pos, pos + e.len() as int)[i + 8 + body_p.len()] == e[i + 8
                + body_p.len()]);
            assert(e[i + 8 + body_p.len()] == cnt_c[i]);
        }
    }
    lemma_dec_u64_enc(b, p1, n.children.len() as u64);
    assert(b.subrange(p1 + 8, p1 + 8 + body_c.len() as int) =~= body_c) by {
        assert forall|i: int|
            0 <= i < body_c.len() implies b.subrange(p1 + 8, p1 + 8 + body_c.len() as int)[i]
            == body_c[i] by {
            assert(b.subrange(pos, pos + e.len() as int)[i + 16 + body_p.len()] == e[i + 16
                + body_p.len()]);
            assert(e[i + 16 + body_p.len()] == body_c[i]);
        }
    }
    lemma_dec_children_enc(b, p1 + 8, n.children);
    assert(NodeView { children: n.children, paths: n.paths } =~= n);
}

/// A bare path list: its count, then each path as a counted string. The
/// format of the flat (non-trie) index file.
pub open spec fn enc_path_list(ps: Seq<Seq<char>>) -> Seq<u8> {
    enc_u64(ps.len() as u64) + enc_paths(ps)
}

/// The path list a whole buffer holds, when it decodes exactly.
pub open spec fn dec_path_list(b: Seq<u8>) -> Option<Seq<Seq<char>>> {
    match dec_u64(b, 0) {
        None => None,
        Some(n) => match dec_paths(b, 8, n as nat) {
            None => None,
            Some((ps, p)) => if p == b.len() {
                Some(ps)
            } else {
                None
            },
        },
    }
}

/// Decoding an encoded path list reproduces it: round-trip fidelity of the
/// flat index file format.
pub proof fn lemma_path_list_roundtrip(ps: Seq<Seq<char>>)
    requires
        ps.len() <= u64::MAX,
        forall|i: int| 0 <= i < ps.len() ==> (#[trigger] ps[i]).len() <= u64::MAX,
    ensures
        dec_path_list(enc_path_list(ps)) == Some(ps),
{
    let b = enc_path_list(ps);
    let cnt = enc_u64(ps.len() as u64);
    let body = enc_paths(ps);
    vstd::bytes::lemma_auto_spec_u64_to_from_le_bytes();
    assert(b.subrange(0, 8) =~= cnt);
    lemma_dec_u64_enc(b, 0, ps.len() as u64);
    assert(b.subrange(8, 8 + body.len() as int) =~= body);
    lemma_dec_paths_enc(b, 8, ps);
}

/// Appends the encoding of the characters of `s` from position `k` on.
fn encode_chars_from(s: &str, k: usize, out: &mut Vec<u8>)
    requires
        k <= s@.len(),
    ensures
        final(out)@ == old(out)@ + enc_chars(s@.skip(k as int)),
    decreases s@.len() - k,
{
    let n = s.unicode_len();
    if k < n {
        let c = s.get_char(k);
        let mut cb = u32_to_le_bytes(c as u32);
        out.append(&mut cb);
        let ghost mid = out@;
        encode_chars_from(s, k + 1, out);
        proof {
            assert(s@.skip(k as int)[0] == c);
            assert(s@.skip(k as int).drop_first() =~= s@.skip(k as int + 1));
            assert(out@ =~= old(out)@ + enc_chars(s@.skip(k as int)));
        }
    } else {
        proof {
            assert(s@.skip(k as int) =~= Seq::<char>::empty());
            assert(out@ =~= old(out)@ + enc_chars(s@.skip(k as int)));
        }
    }
}

/// Appends the encoding of the string `s`: its character count, then its
/// characters.
fn encode_str_into(s: &str, out: &mut Vec<u8>)
    ensures
        final(out)@ == old(out)@ + enc_str(s@),
        s@.len() <= u64::MAX,
{
    let n = s.unicode_len();
    proof {
        assert(n <= usize::MAX);
        assert(usize::MAX <= u64::MAX);
    }
    let mut nb = u64_to_le_bytes(n as u64);
    out.append(&mut nb);
    proof {
        assert(s@.skip(0) =~= s@);
    }
    encode_chars_from(s, 0, out);
    proof {
        assert(out@ =~= old(out)@ + enc_str(s@));
    }
}

/// Appends the encoding of the paths in `ps` from position `k` on.
fn encode_paths_from(ps: &Vec<String>, k: usize, out: &mut Vec<u8>)
    requires
        k <= ps@.len(),
    ensures
        final(out)@ == old(out)@ + enc_paths(ps.deep_view().skip(k as int)),
        forall|i: int|
            k <= i < ps@.len() ==> (#[trigger] ps.deep_view()[i]).len() <= u64::MAX,
    decreases ps@.len() - k,
{
    let ghost dv = ps.deep_view();
    if k < ps.len() {
        encode_str_into(ps[k].as_str(), out);
        encode_paths_from(ps, k + 1, out);
        proof {
            assert(dv.skip(k as int)[0] == dv[k as int]);
            assert(dv[k as int] == ps@[k as int]@);
            assert(dv.skip(k as int).drop_first() =~= dv.skip(k as int + 1));
            assert(out@ =~= old(out)@ + enc_paths(dv.skip(k as int)));
        }
    } else {
        proof {
            assert(dv.skip(k as int) =~= Seq::<Seq<char>>::empty());
            assert(out@ =~= old(out)@ + enc_paths(dv.skip(k as int)));
        }
    }
}

/// Appends the encoding of the children in `cs` from position `k` on.
fn encode_children_from(cs: &Vec<(char, Node)>, k: usize, out: &mut Vec<u8>)
    requires
        k <= cs@.len(),
    ensures
        final(out)@ == old(out)@ + enc_children(children_view(cs@).skip(k as int)),
        forall|i: int|
            k <= i < cs@.len() ==> bounded_node((#[trigger] children_view(cs@)[i]).1),
    decreases *cs, cs@.len() - k,
{
    let ghost cv = children_view(cs@);
    proof {
        lemma_children_view(cs@);
    }
    if k < cs.len() {
        let c = cs[k].0;
        let mut cb = u32_to_le_bytes(c as u32);
        out.append(&mut cb);
        encode_node_into(&cs[k].1, out);
        encode_children_from(cs, k + 1, out);
        proof {
            assert(cv.skip(k as int)[0] == cv[k as int]);
            assert(cv[k as int] == (c, cs@[k as int].1@));
            assert(cv.skip(k as int).drop_first() =~= cv.skip(k as int + 1));
            assert(out@ =~= old(out)@ + enc_children(cv.skip(k as int)));
        }
    } else {
        proof {
            assert(cv.skip(k as int) =~= Seq::<(char, NodeView)>::empty());
            assert(out@ =~= old(out)@ + enc_children(cv.skip(k as int)));
        }
    }
}

/// Appends the encoding of the whole node `n`.
fn encode_node_into(n: &Node, out: &mut Vec<u8>)
    ensures
        final(out)@ == old(out)@ + enc_node(n@),
        bounded_node(n@),
    decreases *n, 0int,
{
    let mut pb = u64_to_le_bytes(n.paths.len() as u64);
    out.append(&mut pb);
    proof {
        assert(n.paths.deep_view().skip(0) =~= n.paths.deep_view());
    }
    encode_paths_from(&n.paths, 0, out);
    let mut cb = u64_to_le_bytes(n.children.len() as u64);
    out.append(&mut cb);
    proof {
        lemma_children_view(n.children@);
        assert(children_view(n.children@).skip(0) =~= children_view(n.children@));
    }
    encode_children_from(&n.children, 0, out);
    proof {
        assert(n@.paths.len() == n.paths@.len());
        assert(n@.children.len() == n.children@.len());
        assert(out@ =~= old(out)@ + enc_node(n@));
    }
}

impl Node {
    /// Serializes this subtree into the length-prefixed binary shard format.
    pub fn encode(&self) -> (r: Vec<u8>)
        ensures
            r@ == enc_node(self@),
            bounded_node(self@),
    {
        let mut out: Vec<u8> = Vec::new();
        encode_node_into(self, &mut out);
        proof {
            assert(out@ =~= enc_node(self@));
        }
        out
    }
}

/// Reads the u64 at `pos`, when eight bytes are there.
fn read_u64(b: &Vec<u8>, pos: usize) -> (r: Option<u64>)
    ensures
        r == dec_u64(b@, pos as int),
{
    if pos <= b.len() && b.len() - pos >= 8 {
        let s = slice_subrange(b.as_slice(), pos, pos + 8);
        Some(u64_from_le_bytes(s))
    } else {
        None
    }
}

/// Reads the character at `pos`, when four bytes with a valid scalar value
/// are there.
fn read_char(b: &Vec<u8>, pos: usize) -> (r: Option<char>)
    ensures
        r == dec_char(b@, pos as int),
{
    if pos <= b.len() && b.len() - pos >= 4 {
        let s = slice_subrange(b.as_slice(), pos, pos + 4);
        let u = u32_from_le_bytes(s);
        let r = char::from_u32(u);
        proof {
            if r is Some {
                vstd::utf8::char_u32_cast(r.unwrap(), u);
            }
        }
        r
    } else {
        None
    }
}

/// Reads `n` characters from `pos`, appending them to `acc`; yields the
/// position after them.
fn decode_chars_into(b: &Vec<u8>, pos: usize, n: u64, acc: &mut String) -> (r: Option<usize>)
    ensures
        match dec_chars(b@, pos as int, n as nat) {
            Some((s, p)) => r matches Some(p2) && p2 == p && final(acc)@ == old(acc)@ + s,
            None => r is None,
        },
    decreases n,
{
    if n == 0 {
        proof {
            assert(old(acc)@ + Seq::<char>::empty() =~= old(acc)@);
        }
        Some(pos)
    } else {
        match read_char(b, pos) {
            None => None,
            Some(c) => {
                proof {
                    assert(pos + 4 <= b.len());
                }
                acc.push(c);
                let ghost before = acc@;
                let r = decode_chars_into(b, pos + 4, n - 1, acc);
                proof {
                    match dec_chars(b@, pos as int + 4, (n - 1) as nat) {
                        Some((s, p)) => {
                            assert(acc@ =~= old(acc)@ + (seq![c] + s));
                        },
                        None => {},
                    }
                }
                r
            },
        }
    }
}

/// Reads a counted string from `pos`; yields it and the position after it.
fn decode_str(b: &Vec<u8>, pos: usize) -> (r: Option<(String, usize)>)
    ensures
        match dec_str(b@, pos as int) {
            Some((s, p)) => r matches Some(sp) && sp.0@ == s && sp.1 == p,
            None => r is None,
        },
{
    match read_u64(b, pos) {
        None => None,
        Some(n) => {
            proof {
                assert(pos + 8 <= b.len());
            }
            let mut s = String::new();
            match decode_chars_into(b, pos + 8, n, &mut s) {
                None => None,
                Some(p) => {
                    proof {
                        match dec_chars(b@, pos as int + 8, n as nat) {
                            Some((cs, q)) => {
                                assert(s@ =~= cs);
                            },
                            None => {},
                        }
                    }
                    Some((s, p))
                },
            }
        },
    }
}

/// Reads `n` counted strings from `pos`, appending them to `acc`; yields the
/// position after them.
fn decode_paths_into(b: &Vec<u8>, pos: usize, n: u64, acc: &mut Vec<String>) -> (r: Option<
    usize,
>)
    ensures
        match dec_paths(b@, pos as int, n as nat) {
            Some((ps, p)) => r matches Some(p2) && p2 == p && final(acc).deep_view() == old(
                acc,
            ).deep_view() + ps,
            None => r is None,
        },
    decreases n,
{
    if n == 0 {
        proof {
            assert(old(acc).deep_view() + Seq::<Seq<char>>::empty() =~= old(acc).deep_view());
        }
        Some(pos)
    } else {
        match decode_str(b, pos) {
            None => None,
            Some((s, p)) => {
                let ghost sv = s@;
                acc.push(s);
                proof {
                    assert(acc.deep_view() =~= old(acc).deep_view().push(sv));
                }
                let r = decode_paths_into(b, p, n - 1, acc);
                proof {
                    match dec_paths(b@, p as int, (n - 1) as nat) {
                        Some((ps, p2)) => {
                            assert(acc.deep_view() =~= old(acc).deep_view() + (seq![sv] + ps));
                        },
                        None => {},
                    }
                }
                r
            },
        }
    }
}

/// Reads `n` children from `pos`, appending them to `acc`; yields the
/// position after them.
fn decode_children_into(b: &Vec<u8>, pos: usize, n: u64, acc: &mut Vec<(char, Node)>) -> (r:
    Option<usize>)
    requires
        pos <= b@.len(),
    ensures
        match dec_children(b@, pos as int, n as nat) {
            Some((cs, p)) => r matches Some(p2) && p2 == p && children_view(final(acc)@)
                == children_view(old(acc)@) + cs,
            None => r is None,
        },
    decreases b@.len() - pos,
{
    if n == 0 {
        proof {
            assert(children_view(acc@) + Seq::<(char, NodeView)>::empty() =~= children_view(
                acc@,
            ));
        }
        Some(pos)
    } else {
        match read_char(b, pos) {
            None => None,
            Some(c) => {
                proof {
                    assert(pos + 4 <= b.len());
                }
                match decode_node(b, pos + 4) {
                    None => None,
                    Some((nd, p)) => {
                        if p <= pos + 4 || p > b.len() {
                            None
                        } else {
                            let ghost ndv = nd@;
                            proof {
                                lemma_children_view(acc@);
                            }
                            acc.push((c, nd));
                            proof {
                                lemma_children_view(acc@);
                                assert(children_view(acc@) =~= children_view(
                                    old(acc)@,
                                ).push((c, ndv)));
                            }
                            let r = decode_children_into(b, p, n - 1, acc);
                            proof {
                                match dec_children(b@, p as int, (n - 1) as nat) {
                                    Some((cs, p2)) => {
                                        assert(children_view(acc@) =~= children_view(old(acc)@)
                                            + (seq![(c, ndv)] + cs));
                                    },
                                    None => {},
                                }
                            }
                            r
                        }
                    },
                }
            },
        }
    }
}

/// Reads a whole node from `pos`; yields it and the position after it.
pub fn decode_node(b: &Vec<u8>, pos: usize) -> (r: Option<(Node, usize)>)
    requires
        pos <= b@.len(),
    ensures
        match dec_node(b@, pos as int) {
            Some((nv, p)) => r matches Some(np) && np.0@ == nv && np.1 == p,
            None => r is None,
        },
    decreases b@.len() - pos,
{
    match read_u64(b, pos) {
        None => None,
        Some(pc) => {
            proof {
                assert(pos + 8 <= b.len());
            }
            let mut paths: Vec<String> = Vec::new();
            match decode_paths_into(b, pos + 8, pc, &mut paths) {
                None => None,
                Some(p1) => {
                    if p1 < pos + 8 || p1 > b.len() {
                        None
                    } else {
                        match read_u64(b, p1) {
                            None => None,
                            Some(cc) => {
                                proof {
                                    assert(p1 + 8 <= b.len());
                                }
                                let mut children: Vec<(char, Node)> = Vec::new();
                                match decode_children_into(b, p1 + 8, cc, &mut children) {
                                    None => None,
                                    Some(p2) => {
                                        let nd = Node { children, paths };
                                        proof {
                                            match dec_children(b@, p1 as int + 8, cc as nat) {
                                                Some((cs, q)) => {
                                                    assert(children_view(nd.children@) =~= cs);
                                                    assert(nd.paths.deep_view() =~= dec_paths(
                                                        b@,
                                                        pos as int + 8,
                                                        pc as nat,
                                                    ).unwrap().0);
                                                },
                                                None => {},
                                            }
                                        }
                                        Some((nd, p2))
                                    },
                                }
                            },
                        }
                    }
                },
            }
        },
    }
}

/// Serializes a bare path list into the flat index file format.
pub fn encode_path_list(ps: &Vec<String>) -> (r: Vec<u8>)
    ensures
        r@ == enc_path_list(ps.deep_view()),
        ps.deep_view().len() <= u64::MAX,
        forall|i: int|
            0 <= i < ps.deep_view().len() ==> (#[trigger] ps.deep_view()[i]).len() <= u64::MAX,
{
    let mut out: Vec<u8> = Vec::new();
    let mut nb = u64_to_le_bytes(ps.len() as u64);
    out.append(&mut nb);
    proof {
        assert(ps.deep_view().skip(0) =~= ps.deep_view());
        assert(usize::MAX <= u64::MAX);
    }
    encode_paths_from(ps, 0, &mut out);
    proof {
        assert(out@ =~= enc_path_list(ps.deep_view()));
    }
    out
}

/// Reads a whole buffer back as a path list; `None` on any malformed or
/// trailing byte.
pub fn decode_path_list(b: &Vec<u8>) -> (r: Option<Vec<String>>)
    ensures
        match dec_path_list(b@) {
            Some(ps) => r matches Some(v) && v.deep_view() == ps,
            None => r is None,
        },
{
    match read_u64(b, 0) {
        None => None,
        Some(n) => {
            let mut acc: Vec<String> = Vec::new();
            match decode_paths_into(b, 8, n, &mut acc) {
                None => None,
                Some(p) => {
                    if p == b.len() {
                        proof {
                            match dec_paths(b@, 8, n as nat) {
                                Some((ps, q)) => {
                                    assert(acc.deep_view() =~= ps);
                                },
                                None => {},
                            }
                        }
                        Some(acc)
                    } else {
                        None
                    }
                },
            }
        },
    }
}

} // verus!
