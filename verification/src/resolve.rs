//! Resolving a request's URL path to a file-system path under the served root.

use vstd::prelude::*;
use vstd::utf8::*;
use crate::text::chars_of;
use crate::text::string_of;

verus! {

/// An ASCII hexadecimal digit: `0-9`, `A-F` or `a-f`.
pub open spec fn is_hex_digit(b: u8) -> bool {
    (0x30 <= b <= 0x39) || (0x41 <= b <= 0x46) || (0x61 <= b <= 0x66)
}

/// The value of a hexadecimal digit.
pub open spec fn hex_value(b: u8) -> int {
    if b <= 0x39 {
        b - 0x30
    } else if b <= 0x46 {
        b - 0x41 + 10
    } else {
        b - 0x61 + 10
    }
}

/// Percent-decoding of a byte string: each `%` followed by two hexadecimal
/// digits stands for the byte they spell; every other byte, a lone `%`
/// included, stands for itself.
pub open spec fn percent_decoded(b: Seq<u8>) -> Seq<u8>
    decreases b.len(),
{
    if b.len() == 0 {
        seq![]
    } else if b[0] == 0x25 && b.len() >= 3 && is_hex_digit(b[1]) && is_hex_digit(b[2]) {
        seq![(hex_value(b[1]) * 16 + hex_value(b[2])) as u8] + percent_decoded(b.skip(3))
    } else {
        seq![b[0]] + percent_decoded(b.skip(1))
    }
}

/// The text a URL path stands for: its percent-decoded UTF-8 bytes read as
/// UTF-8, or `None` where they are not well-formed UTF-8.
pub open spec fn decoded_url(url: Seq<char>) -> Option<Seq<char>> {
    let bytes = percent_decoded(encode_utf8(url));
    if valid_utf8(bytes) {
        Some(decode_utf8(bytes))
    } else {
        None
    }
}

/// `percent_encoding::percent_decode_str(input).decode_utf8()`. The contract
/// states that the crate decodes each `%XY` with two hexadecimal digits to
/// one byte and keeps every other byte, and that the result is `Ok` exactly
/// when the decoded bytes are well-formed UTF-8, holding their text.
#[verifier::external_body]
fn percent_decode_utf8(input: &str) -> (res: Option<String>)
    ensures
        res is Some <==> valid_utf8(percent_decoded(encode_utf8(input@))),
        res matches Some(s) ==> s@ == decode_utf8(percent_decoded(encode_utf8(input@))),
{
    match percent_encoding::percent_decode_str(input).decode_utf8() {
        Ok(text) => Some(text.into_owned()),
        Err(_) => None,
    }
}

/// The pieces of `s` between the `/` characters, as `str::split('/')` gives
/// them: `n` slashes make `n + 1` pieces, empty ones included.
pub open spec fn split_on_slash(s: Seq<char>) -> Seq<Seq<char>>
    decreases s.len(),
{
    if s.len() == 0 {
        seq![seq![]]
    } else {
        let init = split_on_slash(s.drop_last());
        if s.last() == '/' {
            init.push(seq![])
        } else {
            init.update(init.len() - 1, init.last().push(s.last()))
        }
    }
}

/// `PathBuf::push` of a relative component on a Unix path: a separator is
/// put between the two unless `base` is empty or already ends with one.
pub open spec fn join_path_spec(base: Seq<char>, seg: Seq<char>) -> Seq<char> {
    if base.len() == 0 || base.last() == '/' {
        base + seg
    } else {
        base.push('/') + seg
    }
}

/// A segment that names the current directory and is skipped.
pub open spec fn is_skipped_segment(seg: Seq<char>) -> bool {
    seg == Seq::<char>::empty() || seg == seq!['.']
}

/// A segment that names the parent directory, which is refused.
pub open spec fn is_parent_segment(seg: Seq<char>) -> bool {
    seg == seq!['.', '.']
}

/// The path that the segments lead to from `base`, taken in order: empty and
/// `.` segments are skipped, any `..` segment refuses the whole path, and each
/// other segment is joined on.
pub open spec fn resolve_segments(base: Seq<char>, segs: Seq<Seq<char>>) -> Option<Seq<char>>
    decreases segs.len(),
{
    if segs.len() == 0 {
        Some(base)
    } else {
        match resolve_segments(base, segs.drop_last()) {
            None => None,
            Some(p) => {
                let s = segs.last();
                if is_skipped_segment(s) {
                    Some(p)
                } else if is_parent_segment(s) {
                    None
                } else {
                    Some(join_path_spec(p, s))
                }
            },
        }
    }
}

/// The file-system path that `url` resolves to under `root`, or `None`
/// where the URL does not decode or tries to leave `root`.
pub open spec fn resolve_url(root: Seq<char>, url: Seq<char>) -> Option<Seq<char>> {
    match decoded_url(url) {
        None => None,
        Some(d) => resolve_segments(root, split_on_slash(d)),
    }
}

/// `split_on_slash` never returns an empty list.
proof fn lemma_split_nonempty(s: Seq<char>)
    ensures
        split_on_slash(s).len() >= 1,
    decreases s.len(),
{
    if s.len() > 0 {
        lemma_split_nonempty(s.drop_last());
    }
}

/// Once a prefix of the segments is refused, the whole path is refused.
proof fn lemma_refusal_persists(root: Seq<char>, d: Seq<char>, j: int)
    requires
        0 <= j <= d.len(),
        resolve_segments(root, split_on_slash(d.take(j)).drop_last()) is None,
    ensures
        resolve_segments(root, split_on_slash(d)) is None,
    decreases d.len() - j,
{
    lemma_split_nonempty(d.take(j));
    if j == d.len() {
        assert(d.take(j) == d);
    } else {
        let next = d.take(j + 1);
        assert(next.drop_last() == d.take(j));
        lemma_split_nonempty(d.take(j));
        let prev = split_on_slash(d.take(j));
        if d[j] == '/' {
            assert(split_on_slash(next).drop_last() == prev);
        } else {
            assert(split_on_slash(next).drop_last() == prev.drop_last());
        }
        lemma_refusal_persists(root, d, j + 1);
    }
}

/// Joins `seg` onto `base` as `PathBuf::push` does with a relative component.
pub fn join_path(base: &str, seg: &str) -> (res: String)
    ensures
        res@ == join_path_spec(base@, seg@),
{
    let mut chars = chars_of(base);
    let tail = chars_of(seg);
    push_segment(&mut chars, &tail);
    string_of(&chars)
}

fn push_segment(path: &mut Vec<char>, seg: &Vec<char>)
    ensures
        final(path)@ == join_path_spec(old(path)@, seg@),
{
    let n = path.len();
    if n > 0 && path[n - 1] != '/' {
        path.push('/');
    }
    let ghost mid = path@;
    for i in 0..seg.len()
        invariant
            path@ == mid + seg@.take(i as int),
    {
        path.push(seg[i]);
    }
    assert(seg@.take(seg.len() as int) == seg@);
}

/// Resolves a URL path against `root`, refusing any attempt to escape it
/// with `..`.
pub fn sanitize_path(root: &str, url_path: &str) -> (res: Option<String>)
    ensures
        match resolve_url(root@, url_path@) {
            None => res is None,
            Some(p) => res matches Some(s) && s@ == p,
        },
{
    let decoded = match percent_decode_utf8(url_path) {
        Some(text) => text,
        None => return None,
    };
    let ghost d = decoded@;
    let chars = chars_of(decoded.as_str());
    let mut path = chars_of(root);
    let mut seg: Vec<char> = Vec::new();
    proof {
        assert(d.take(0) == Seq::<char>::empty());
        assert(split_on_slash(Seq::<char>::empty()).drop_last() == Seq::<Seq<char>>::empty());
    }
    for i in 0..chars.len()
        invariant
            chars@ == d,
            decoded_url(url_path@) == Some(d),
            resolve_segments(root@, split_on_slash(d.take(i as int)).drop_last()) == Some(path@),
            split_on_slash(d.take(i as int)).last() == seg@,
    {
        let c = chars[i];
        let ghost prev = split_on_slash(d.take(i as int));
        proof {
            lemma_split_nonempty(d.take(i as int));
            assert(d.take(i + 1).drop_last() == d.take(i as int));
        }
        if c == '/' {
            proof {
                assert(split_on_slash(d.take(i + 1)).drop_last() == prev);
                assert(prev.drop_last().push(prev.last()) == prev);
            }
            let n = seg.len();
            if n == 2 && seg[0] == '.' && seg[1] == '.' {
                proof {
                    assert(seg@ =~= seq!['.', '.']);
                    lemma_refusal_persists(root@, d, i + 1);
                    assert(d.take(d.len() as int) == d);
                }
                return None;
            } else if n == 0 || (n == 1 && seg[0] == '.') {
                proof {
                    if n == 0 {
                        assert(seg@ =~= Seq::<char>::empty());
                    } else {
                        assert(seg@ =~= seq!['.']);
                    }
                }
            } else {
                proof {
                    assert(!is_skipped_segment(seg@)) by {
                        if seg@ == seq!['.'] { assert(seg@[0] == '.'); }
                    }
                    assert(!is_parent_segment(seg@)) by {
                        if seg@ == seq!['.', '.'] { assert(seg@[0] == '.' && seg@[1] == '.'); }
                    }
                }
                push_segment(&mut path, &seg);
            }
            seg = Vec::new();
        } else {
            proof {
                assert(split_on_slash(d.take(i + 1)).drop_last() == prev.drop_last());
            }
            seg.push(c);
        }
    }
    proof {
        assert(d.take(chars.len() as int) == d);
        lemma_split_nonempty(d);
        let segs = split_on_slash(d);
        assert(segs.drop_last().push(segs.last()) == segs);
    }
    let n = seg.len();
    if n == 2 && seg[0] == '.' && seg[1] == '.' {
        proof {
            assert(seg@ =~= seq!['.', '.']);
        }
        return None;
    } else if n == 0 || (n == 1 && seg[0] == '.') {
        proof {
            if n == 0 {
                assert(seg@ =~= Seq::<char>::empty());
            } else {
                assert(seg@ =~= seq!['.']);
            }
        }
    } else {
        proof {
            assert(!is_skipped_segment(seg@)) by {
                if seg@ == seq!['.'] { assert(seg@[0] == '.'); }
            }
            assert(!is_parent_segment(seg@)) by {
                if seg@ == seq!['.', '.'] { assert(seg@[0] == '.' && seg@[1] == '.'); }
            }
        }
        push_segment(&mut path, &seg);
    }
    Some(string_of(&path))
}

/// A path component that names an entry of its directory: not empty, not
/// `.` or `..`, and free of `/`.
pub open spec fn is_clean_component(s: Seq<char>) -> bool {
    !is_skipped_segment(s) && !is_parent_segment(s) && !s.contains('/')
}

/// `base` with the components joined on in order.
pub open spec fn join_all(base: Seq<char>, cs: Seq<Seq<char>>) -> Seq<char>
    decreases cs.len(),
{
    if cs.len() == 0 {
        base
    } else {
        join_path_spec(join_all(base, cs.drop_last()), cs.last())
    }
}

/// The segments that are joined on: all but the empty and `.` ones.
pub open spec fn kept_segments(segs: Seq<Seq<char>>) -> Seq<Seq<char>>
    decreases segs.len(),
{
    if segs.len() == 0 {
        seq![]
    } else if is_skipped_segment(segs.last()) {
        kept_segments(segs.drop_last())
    } else {
        kept_segments(segs.drop_last()).push(segs.last())
    }
}

proof fn lemma_split_has_no_slash(s: Seq<char>)
    ensures
        forall|i: int|
            0 <= i < split_on_slash(s).len() ==> !(#[trigger] split_on_slash(s)[i]).contains('/'),
    decreases s.len(),
{
    if s.len() > 0 {
        lemma_split_has_no_slash(s.drop_last());
        lemma_split_nonempty(s.drop_last());
        let init = split_on_slash(s.drop_last());
        if s.last() == '/' {
            assert forall|i: int| 0 <= i < split_on_slash(s).len() implies !(
            #[trigger] split_on_slash(s)[i]).contains('/') by {
                if i < init.len() {
                    assert(split_on_slash(s)[i] == init[i]);
                } else {
                    assert(split_on_slash(s)[i] == Seq::<char>::empty());
                }
            }
        } else {
            assert forall|i: int| 0 <= i < split_on_slash(s).len() implies !(
            #[trigger] split_on_slash(s)[i]).contains('/') by {
                if i < init.len() - 1 {
                    assert(split_on_slash(s)[i] == init[i]);
                } else {
                    let last = init.last().push(s.last());
                    assert(split_on_slash(s)[i] == last);
                    assert(!init[init.len() - 1].contains('/'));
                    if last.contains('/') {
                        let j = choose|j: int| 0 <= j < last.len() && last[j] == '/';
                        if j < init.last().len() {
                            assert(init.last()[j] == '/');
                        }
                    }
                }
            }
        }
    }
}

proof fn lemma_resolve_segments_kept(base: Seq<char>, segs: Seq<Seq<char>>)
    requires
        resolve_segments(base, segs) is Some,
        forall|i: int| 0 <= i < segs.len() ==> !(#[trigger] segs[i]).contains('/'),
    ensures
        resolve_segments(base, segs) == Some(join_all(base, kept_segments(segs))),
        forall|i: int|
            0 <= i < kept_segments(segs).len() ==> is_clean_component(
                #[trigger] kept_segments(segs)[i],
            ),
    decreases segs.len(),
{
    if segs.len() > 0 {
        let init = segs.drop_last();
        assert forall|i: int| 0 <= i < init.len() implies !(#[trigger] init[i]).contains('/') by {
            assert(init[i] == segs[i]);
        }
        lemma_resolve_segments_kept(base, init);
        let k = kept_segments(init);
        if !is_skipped_segment(segs.last()) {
            assert(kept_segments(segs) == k.push(segs.last()));
            assert(kept_segments(segs).drop_last() == k);
            assert(segs.last() == segs[segs.len() - 1]);
            assert forall|i: int| 0 <= i < kept_segments(segs).len() implies is_clean_component(
                #[trigger] kept_segments(segs)[i],
            ) by {
                if i < k.len() {
                    assert(kept_segments(segs)[i] == k[i]);
                }
            }
        }
    }
}

proof fn lemma_join_all_extends(base: Seq<char>, cs: Seq<Seq<char>>)
    ensures
        base.is_prefix_of(join_all(base, cs)),
    decreases cs.len(),
{
    if cs.len() > 0 {
        lemma_join_all_extends(base, cs.drop_last());
        let p = join_all(base, cs.drop_last());
        let q = join_all(base, cs);
        assert(p.is_prefix_of(q)) by {
            if p.len() == 0 || p.last() == '/' {
                assert(q == p + cs.last());
            } else {
                assert(q == p.push('/') + cs.last());
            }
            assert forall|i: int| 0 <= i < p.len() implies q[i] == p[i] by {}
        }
        assert forall|i: int| 0 <= i < base.len() implies q[i] == base[i] by {
            assert(p[i] == base[i]);
        }
    }
}

/// Path-traversal protection: every path that a URL resolves to starts with
/// the root and is the root followed by components, each of which names an
/// entry of its directory (none is empty, `.` or `..`, and none holds `/`).
pub proof fn lemma_resolved_path_stays_under_root(root: Seq<char>, url: Seq<char>)
    requires
        resolve_url(root, url) is Some,
    ensures
        root.is_prefix_of(resolve_url(root, url)->0),
        exists|cs: Seq<Seq<char>>|
            (forall|i: int| 0 <= i < cs.len() ==> is_clean_component(#[trigger] cs[i]))
                && resolve_url(root, url) == Some(join_all(root, cs)),
{
    let d = decoded_url(url)->0;
    let segs = split_on_slash(d);
    lemma_split_has_no_slash(d);
    lemma_resolve_segments_kept(root, segs);
    lemma_join_all_extends(root, kept_segments(segs));
    let cs = kept_segments(segs);
    assert(forall|i: int| 0 <= i < cs.len() ==> is_clean_component(#[trigger] cs[i]));
}

proof fn lemma_parent_refuses_segments(base: Seq<char>, segs: Seq<Seq<char>>, k: int)
    requires
        0 <= k < segs.len(),
        is_parent_segment(segs[k]),
    ensures
        resolve_segments(base, segs) is None,
    decreases segs.len(),
{
    if k < segs.len() - 1 {
        assert(segs.drop_last()[k] == segs[k]);
        lemma_parent_refuses_segments(base, segs.drop_last(), k);
    } else {
        assert(segs.last() == segs[k]);
        assert(!is_skipped_segment(segs[k])) by {
            if segs[k] == Seq::<char>::empty() {
                assert(segs[k].len() == 2);
            }
            if segs[k] == seq!['.'] {
                assert(segs[k].len() == 2);
            }
        }
    }
}

/// A URL whose decoded path has a `..` segment anywhere is refused, however
/// the dots were written (`..`, `%2e%2e`, ...).
pub proof fn lemma_parent_segment_refused(root: Seq<char>, url: Seq<char>, k: int)
    requires
        decoded_url(url) is Some,
        0 <= k < split_on_slash(decoded_url(url)->0).len(),
        is_parent_segment(split_on_slash(decoded_url(url)->0)[k]),
    ensures
        resolve_url(root, url) is None,
{
    lemma_parent_refuses_segments(root, split_on_slash(decoded_url(url)->0), k);
}

/// Leaving out the skipped segments does not change where the segments lead.
proof fn lemma_resolve_ignores_skipped(base: Seq<char>, segs: Seq<Seq<char>>)
    ensures
        resolve_segments(base, segs) == resolve_segments(base, kept_segments(segs)),
    decreases segs.len(),
{
    if segs.len() > 0 {
        let init = segs.drop_last();
        lemma_resolve_ignores_skipped(base, init);
        if !is_skipped_segment(segs.last()) {
            let k = kept_segments(segs);
            assert(k == kept_segments(init).push(segs.last()));
            assert(k.drop_last() == kept_segments(init));
            assert(k.last() == segs.last());
        }
    }
}

/// Empty and `.` segments can be added or removed anywhere: two URLs whose
/// decoded paths have the same segments once those are left out resolve to
/// the same path, or are both refused (`/a/./b//c` and `/a/b/c`, say).
pub proof fn lemma_skipped_segments_do_not_matter(root: Seq<char>, u: Seq<char>, v: Seq<char>)
    requires
        decoded_url(u) is Some,
        decoded_url(v) is Some,
        kept_segments(split_on_slash(decoded_url(u)->0)) == kept_segments(
            split_on_slash(decoded_url(v)->0),
        ),
    ensures
        resolve_url(root, u) == resolve_url(root, v),
{
    lemma_resolve_ignores_skipped(root, split_on_slash(decoded_url(u)->0));
    lemma_resolve_ignores_skipped(root, split_on_slash(decoded_url(v)->0));
}

} // verus!
