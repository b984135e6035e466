//! Rendering the HTML listing of a directory.

use vstd::prelude::*;
use vstd::string::StringExecFns;
use vstd::utf8::*;
use crate::html::escape_html;
use crate::html::escape_html_spec;
use crate::html::percent_encode_segment;
use crate::html::percent_encoded;
use crate::text::chars_of;

verus! {

/// One entry of a directory: its file name and whether it is a directory.
#[derive(Debug, Clone, PartialEq, Eq)]
pub struct DirEntry {
    pub name: String,
    pub is_dir: bool,
}

/// The key entries are ordered by: the UTF-8 bytes of the name, which is
/// how `String`'s ordering compares names.
pub open spec fn name_key(e: DirEntry) -> Seq<u8> {
    encode_utf8(e.name@)
}

/// Lexicographic order on byte strings: `a` comes strictly before `b`.
pub open spec fn bytes_lt(a: Seq<u8>, b: Seq<u8>) -> bool
    decreases a.len(),
{
    if b.len() == 0 {
        false
    } else if a.len() == 0 {
        true
    } else if a[0] != b[0] {
        a[0] < b[0]
    } else {
        bytes_lt(a.drop_first(), b.drop_first())
    }
}

/// `x` put into `s` after every entry whose name does not come after its own.
pub open spec fn insert_sorted(s: Seq<DirEntry>, x: DirEntry) -> Seq<DirEntry>
    decreases s.len(),
{
    if s.len() == 0 {
        seq![x]
    } else if bytes_lt(name_key(x), name_key(s[0])) {
        seq![x] + s
    } else {
        seq![s[0]] + insert_sorted(s.drop_first(), x)
    }
}

/// The entries stably sorted by name.
pub open spec fn sorted_entries(s: Seq<DirEntry>) -> Seq<DirEntry>
    decreases s.len(),
{
    if s.len() == 0 {
        seq![]
    } else {
        insert_sorted(sorted_entries(s.drop_last()), s.last())
    }
}

/// The order on names is lexicographic on their UTF-8 bytes: `a` comes
/// before `b` exactly when `a` is a proper prefix of `b`, or when at the
/// first place where they differ `a` has the smaller byte, whatever their
/// lengths.
pub proof fn lemma_bytes_lt_is_lexicographic(a: Seq<u8>, b: Seq<u8>)
    ensures
        bytes_lt(a, b) <==> ((a.len() < b.len() && a.is_prefix_of(b)) || exists|k: int|
            0 <= k < a.len() && k < b.len() && a.take(k) == b.take(k) && a[k] < b[k]),
    decreases a.len(),
{
    if a.len() == 0 || b.len() == 0 {
        if b.len() == 0 {
            assert(!(a.len() < b.len()));
        } else {
            assert(a.is_prefix_of(b));
        }
    } else if a[0] != b[0] {
        if a[0] < b[0] {
            assert(a.take(0) == b.take(0));
        } else {
            assert(!a.is_prefix_of(b));
            assert(!exists|k: int| 0 <= k < a.len() && k < b.len() && a.take(k) == b.take(k) && a[k] < b[k]) by {
                if exists|k: int| 0 <= k < a.len() && k < b.len() && a.take(k) == b.take(k) && a[k] < b[k] {
                    let k = choose|k: int| 0 <= k < a.len() && k < b.len() && a.take(k) == b.take(k) && a[k] < b[k];
                    if k > 0 {
                        assert(a.take(k)[0] == b.take(k)[0]);
                    }
                }
            }
        }
    } else {
        let a1 = a.drop_first();
        let b1 = b.drop_first();
        lemma_bytes_lt_is_lexicographic(a1, b1);
        assert(a1.is_prefix_of(b1) <==> a.is_prefix_of(b)) by {
            if a.is_prefix_of(b) {
                assert forall|i: int| 0 <= i < a1.len() implies a1[i] == b1[i] by {
                    assert(a[i + 1] == b[i + 1]);
                }
            }
            if a1.is_prefix_of(b1) && a1.len() <= b1.len() {
                assert forall|i: int| 0 <= i < a.len() implies a[i] == b[i] by {
                    if i > 0 {
                        assert(a1[i - 1] == b1[i - 1]);
                    }
                }
            }
        }
        let shifted = exists|k: int| 0 <= k < a1.len() && k < b1.len() && a1.take(k) == b1.take(k) && a1[k] < b1[k];
        let here = exists|k: int| 0 <= k < a.len() && k < b.len() && a.take(k) == b.take(k) && a[k] < b[k];
        assert(shifted ==> here) by {
            if shifted {
                let k = choose|k: int| 0 <= k < a1.len() && k < b1.len() && a1.take(k) == b1.take(k) && a1[k] < b1[k];
                assert(a.take(k + 1) =~= seq![a[0]] + a1.take(k));
                assert(b.take(k + 1) =~= seq![b[0]] + b1.take(k));
                assert(a[k + 1] == a1[k] && b[k + 1] == b1[k]);
            }
        }
        assert(here ==> shifted) by {
            if here {
                let k = choose|k: int| 0 <= k < a.len() && k < b.len() && a.take(k) == b.take(k) && a[k] < b[k];
                assert(k > 0);
                assert(a1.take(k - 1) =~= a.take(k).drop_first());
                assert(b1.take(k - 1) =~= b.take(k).drop_first());
                assert(a1[k - 1] == a[k] && b1[k - 1] == b[k]);
            }
        }
    }
}

/// No entry comes after one with a greater name.
pub open spec fn entries_sorted(s: Seq<DirEntry>) -> bool {
    forall|i: int, j: int|
        0 <= i < j < s.len() ==> !bytes_lt(#[trigger] name_key(s[j]), #[trigger] name_key(s[i]))
}

/// Where `insert_sorted` puts `x`: before the first entry whose name comes
/// after its own.
pub open spec fn insert_index(s: Seq<DirEntry>, x: DirEntry) -> int
    decreases s.len(),
{
    if s.len() == 0 {
        0
    } else if bytes_lt(name_key(x), name_key(s[0])) {
        0
    } else {
        1 + insert_index(s.drop_first(), x)
    }
}

proof fn lemma_bytes_lt_irreflexive(a: Seq<u8>)
    ensures
        !bytes_lt(a, a),
    decreases a.len(),
{
    if a.len() > 0 {
        lemma_bytes_lt_irreflexive(a.drop_first());
    }
}

proof fn lemma_bytes_lt_transitive(a: Seq<u8>, b: Seq<u8>, c: Seq<u8>)
    requires
        bytes_lt(a, b),
        bytes_lt(b, c),
    ensures
        bytes_lt(a, c),
    decreases a.len(),
{
    if a.len() > 0 && b.len() > 0 && c.len() > 0 && a[0] == b[0] && b[0] == c[0] {
        lemma_bytes_lt_transitive(a.drop_first(), b.drop_first(), c.drop_first());
    }
}

proof fn lemma_insert_sorted_is_insert(s: Seq<DirEntry>, x: DirEntry)
    ensures
        0 <= insert_index(s, x) <= s.len(),
        insert_sorted(s, x) == s.insert(insert_index(s, x), x),
    decreases s.len(),
{
    if s.len() == 0 {
        assert(seq![x] =~= s.insert(0, x));
    } else if bytes_lt(name_key(x), name_key(s[0])) {
        assert(seq![x] + s =~= s.insert(0, x));
    } else {
        let rest = s.drop_first();
        lemma_insert_sorted_is_insert(rest, x);
        assert(seq![s[0]] + rest.insert(insert_index(rest, x), x) =~= s.insert(
            insert_index(s, x),
            x,
        ));
    }
}

proof fn lemma_insert_sorted_keeps_order(s: Seq<DirEntry>, x: DirEntry)
    requires
        entries_sorted(s),
    ensures
        entries_sorted(insert_sorted(s, x)),
    decreases s.len(),
{
    if s.len() == 0 {
    } else if bytes_lt(name_key(x), name_key(s[0])) {
        let r = seq![x] + s;
        assert forall|i: int, j: int| 0 <= i < j < r.len() implies !bytes_lt(
            #[trigger] name_key(r[j]),
            #[trigger] name_key(r[i]),
        ) by {
            if i == 0 {
                assert(r[j] == s[j - 1]);
                if bytes_lt(name_key(s[j - 1]), name_key(x)) {
                    lemma_bytes_lt_transitive(name_key(s[j - 1]), name_key(x), name_key(s[0]));
                    if j - 1 == 0 {
                        lemma_bytes_lt_irreflexive(name_key(s[0]));
                    }
                }
            } else {
                assert(r[i] == s[i - 1] && r[j] == s[j - 1]);
            }
        }
    } else {
        let rest = s.drop_first();
        assert(entries_sorted(rest)) by {
            assert forall|i: int, j: int| 0 <= i < j < rest.len() implies !bytes_lt(
                #[trigger] name_key(rest[j]),
                #[trigger] name_key(rest[i]),
            ) by {
                assert(rest[i] == s[i + 1] && rest[j] == s[j + 1]);
            }
        }
        lemma_insert_sorted_keeps_order(rest, x);
        lemma_insert_sorted_is_insert(rest, x);
        let m = insert_sorted(rest, x);
        let k = insert_index(rest, x);
        let r = seq![s[0]] + m;
        assert forall|i: int, j: int| 0 <= i < j < r.len() implies !bytes_lt(
            #[trigger] name_key(r[j]),
            #[trigger] name_key(r[i]),
        ) by {
            if i == 0 {
                assert(r[j] == m[j - 1]);
                if j - 1 < k {
                    assert(m[j - 1] == rest[j - 1]);
                    assert(rest[j - 1] == s[j]);
                } else if j - 1 == k {
                    assert(m[j - 1] == x);
                } else {
                    assert(m[j - 1] == rest[j - 2]);
                    assert(rest[j - 2] == s[j - 1]);
                }
            } else {
                assert(r[i] == m[i - 1] && r[j] == m[j - 1]);
            }
        }
    }
}

/// Sorting yields entries in order of their names.
pub proof fn lemma_sorted_entries_are_sorted(s: Seq<DirEntry>)
    ensures
        entries_sorted(sorted_entries(s)),
    decreases s.len(),
{
    if s.len() > 0 {
        lemma_sorted_entries_are_sorted(s.drop_last());
        lemma_insert_sorted_keeps_order(sorted_entries(s.drop_last()), s.last());
    }
}

/// Sorting keeps every entry, and only those: the result is a permutation.
pub proof fn lemma_sorted_entries_permutes(s: Seq<DirEntry>)
    ensures
        sorted_entries(s).to_multiset() == s.to_multiset(),
    decreases s.len(),
{
    broadcast use vstd::seq_lib::group_to_multiset_ensures;
    if s.len() > 0 {
        let init = s.drop_last();
        let x = s.last();
        lemma_sorted_entries_permutes(init);
        let t = sorted_entries(init);
        lemma_insert_sorted_is_insert(t, x);
        let j = insert_index(t, x);
        let u = t.insert(j, x);
        assert(u.remove(j) == t);
        assert(u[j] == x);
        assert(t.to_multiset() == u.to_multiset().remove(x));
        assert(u.to_multiset().count(x) > 0) by {
            assert(u.contains(x));
        }
        assert(u.to_multiset() =~= t.to_multiset().insert(x));
        assert(init.push(x) == s);
        assert(s.to_multiset() =~= init.to_multiset().insert(x));
    }
}

/// Whether name `a` comes strictly before name `b`.
pub fn name_lt(a: &str, b: &str) -> (r: bool)
    ensures
        r == bytes_lt(encode_utf8(a@), encode_utf8(b@)),
{
    let x = a.as_bytes();
    let y = b.as_bytes();
    let mut i: usize = 0;
    assert(x@.skip(0) == x@);
    assert(y@.skip(0) == y@);
    while i < x.len() && i < y.len()
        invariant
            x@ == encode_utf8(a@),
            y@ == encode_utf8(b@),
            i <= x@.len(),
            i <= y@.len(),
            bytes_lt(x@, y@) == bytes_lt(x@.skip(i as int), y@.skip(i as int)),
        decreases x@.len() - i,
    {
        if x[i] != y[i] {
            return x[i] < y[i];
        }
        assert(x@.skip(i as int).drop_first() == x@.skip(i + 1));
        assert(y@.skip(i as int).drop_first() == y@.skip(i + 1));
        i = i + 1;
    }
    i < y.len()
}

proof fn lemma_insert_sorted_at(s: Seq<DirEntry>, x: DirEntry, j: int)
    requires
        0 <= j <= s.len(),
        forall|k: int| 0 <= k < j ==> !bytes_lt(name_key(x), #[trigger] name_key(s[k])),
        j < s.len() ==> bytes_lt(name_key(x), name_key(s[j])),
    ensures
        insert_sorted(s, x) == s.insert(j, x),
    decreases s.len(),
{
    if s.len() == 0 {
        assert(seq![x] =~= s.insert(0, x));
    } else if j == 0 {
        assert(seq![x] + s =~= s.insert(0, x));
    } else {
        let rest = s.drop_first();
        assert(!bytes_lt(name_key(x), name_key(s[0])));
        assert forall|k: int| 0 <= k < j - 1 implies !bytes_lt(name_key(x), #[trigger] name_key(rest[k])) by {
            assert(rest[k] == s[k + 1]);
        }
        lemma_insert_sorted_at(rest, x, j - 1);
        assert(seq![s[0]] + rest.insert(j - 1, x) =~= s.insert(j, x));
    }
}

fn copy_entry(e: &DirEntry) -> (c: DirEntry)
    ensures
        c == *e,
{
    DirEntry { name: e.name.clone(), is_dir: e.is_dir }
}

/// The entries stably sorted by name, as `sort_by` on the names does.
pub fn sort_entries(entries: &Vec<DirEntry>) -> (res: Vec<DirEntry>)
    ensures
        res@ == sorted_entries(entries@),
{
    let mut sorted: Vec<DirEntry> = Vec::new();
    for i in 0..entries.len()
        invariant
            sorted@ == sorted_entries(entries@.take(i as int)),
    {
        let x = copy_entry(&entries[i]);
        let mut j: usize = 0;
        loop
            invariant
                j <= sorted.len(),
                forall|k: int| 0 <= k < j ==> !bytes_lt(name_key(x), #[trigger] name_key(sorted@[k])),
            ensures
                j <= sorted.len(),
                forall|k: int| 0 <= k < j ==> !bytes_lt(name_key(x), #[trigger] name_key(sorted@[k])),
                j < sorted.len() ==> bytes_lt(name_key(x), name_key(sorted@[j as int])),
            decreases sorted.len() - j,
        {
            if j == sorted.len() {
                break;
            }
            if name_lt(x.name.as_str(), sorted[j].name.as_str()) {
                break;
            }
            j = j + 1;
        }
        proof {
            lemma_insert_sorted_at(sorted@, x, j as int);
            assert(entries@.take(i + 1).drop_last() == entries@.take(i as int));
            assert(entries@.take(i + 1).last() == x);
        }
        sorted.insert(j, x);
    }
    assert(entries@.take(entries.len() as int) == entries@);
    sorted
}

/// The base that entry links are built on: the URL path with a trailing `/`
/// added where it has none.
pub open spec fn listing_base(url: Seq<char>) -> Seq<char> {
    if url.len() > 0 && url.last() == '/' {
        url
    } else {
        url.push('/')
    }
}

/// `s` without its trailing `/` characters.
pub open spec fn trim_trailing_slashes(s: Seq<char>) -> Seq<char>
    decreases s.len(),
{
    if s.len() > 0 && s.last() == '/' {
        trim_trailing_slashes(s.drop_last())
    } else {
        s
    }
}

/// The index of the last `/` in `s`, or -1 where there is none.
pub open spec fn last_slash(s: Seq<char>) -> int
    decreases s.len(),
{
    if s.len() == 0 {
        -1
    } else if s.last() == '/' {
        s.len() - 1
    } else {
        last_slash(s.drop_last())
    }
}

/// The link to the parent directory: `base` without its trailing slashes,
/// cut after its last `/`, or `/` where no `/` is left.
pub open spec fn parent_link(base: Seq<char>) -> Seq<char> {
    let t = trim_trailing_slashes(base);
    let i = last_slash(t);
    if i >= 0 {
        t.take(i + 1)
    } else {
        seq!['/']
    }
}

/// The list item of one entry: a link to `base` and the encoded name, with
/// the escaped name as its text; a directory gets a trailing `/` in both.
pub open spec fn entry_line(base: Seq<char>, e: DirEntry) -> Seq<char> {
    let encoded = percent_encoded(encode_utf8(e.name@));
    let shown = escape_html_spec(e.name@);
    if e.is_dir {
        "<li><a href=\""@ + base + encoded + "/\">"@ + shown + "/</a></li>\n"@
    } else {
        "<li><a href=\""@ + base + encoded + "\">"@ + shown + "</a></li>\n"@
    }
}

/// The list items of the entries, in the order given.
pub open spec fn entry_lines(base: Seq<char>, es: Seq<DirEntry>) -> Seq<char>
    decreases es.len(),
{
    if es.len() == 0 {
        seq![]
    } else {
        entry_lines(base, es.drop_last()) + entry_line(base, es.last())
    }
}

/// The head of a listing page, titled with the escaped URL path.
pub open spec fn listing_head(url: Seq<char>) -> Seq<char> {
    let title = escape_html_spec(url);
    "<!doctype html><meta charset=utf-8><title>Index of "@ + title
        + "</title>\n<h1>Index of "@ + title + "</h1>\n<ul>\n"@
}

/// The link to the parent directory, left out where the base is `/`.
pub open spec fn parent_line(base: Seq<char>) -> Seq<char> {
    if base != seq!['/'] {
        "<li><a href=\""@ + parent_link(base) + "\">../</a></li>\n"@
    } else {
        seq![]
    }
}

/// The whole listing page of a directory reached by `url`.
pub open spec fn listing_html(url: Seq<char>, entries: Seq<DirEntry>) -> Seq<char> {
    let base = listing_base(url);
    listing_head(url) + parent_line(base) + entry_lines(base, sorted_entries(entries))
        + "</ul>\n"@
}

/// A directory reached with or without a trailing `/` gets the same page
/// after its title: the same parent link and the same entry links, all
/// built on the URL path with a trailing `/`.
pub proof fn lemma_listing_ignores_trailing_slash(url: Seq<char>, entries: Seq<DirEntry>)
    requires
        url.len() == 0 || url.last() != '/',
    ensures
        listing_base(url) == listing_base(url.push('/')),
        listing_html(url, entries).skip(listing_head(url).len() as int) == listing_html(
            url.push('/'),
            entries,
        ).skip(listing_head(url.push('/')).len() as int),
{
    let slashed = url.push('/');
    assert(slashed.last() == '/');
    assert(listing_base(url) == slashed);
    let rest = parent_line(slashed) + entry_lines(slashed, sorted_entries(entries)) + "</ul>\n"@;
    assert(listing_html(url, entries) =~= listing_head(url) + rest);
    assert(listing_html(slashed, entries) =~= listing_head(slashed) + rest);
    assert((listing_head(url) + rest).skip(listing_head(url).len() as int) =~= rest);
    assert((listing_head(slashed) + rest).skip(listing_head(slashed).len() as int) =~= rest);
}

proof fn lemma_last_slash_skips_tail(p: Seq<char>, seg: Seq<char>)
    requires
        !seg.contains('/'),
    ensures
        last_slash(p + seg) == last_slash(p),
    decreases seg.len(),
{
    if seg.len() == 0 {
        assert(p + seg == p);
    } else {
        assert((p + seg).drop_last() == p + seg.drop_last());
        assert((p + seg).last() == seg.last());
        assert(seg.last() != '/') by {
            assert(seg[seg.len() - 1] == seg.last());
        }
        assert(!seg.drop_last().contains('/')) by {
            if seg.drop_last().contains('/') {
                let j = choose|j: int| 0 <= j < seg.drop_last().len() && seg.drop_last()[j] == '/';
                assert(seg[j] == '/');
            }
        }
        lemma_last_slash_skips_tail(p, seg.drop_last());
    }
}

/// The parent link of a directory one level below `p` (a path ending in
/// `/`) is `p` itself, and that of a directory at the top, whose base has
/// no other `/`, is `/`; extra trailing slashes change neither.
pub proof fn lemma_parent_link_is_one_level_up(p: Seq<char>, seg: Seq<char>, extra: nat)
    requires
        seg.len() > 0,
        !seg.contains('/'),
        p.len() == 0 || p.last() == '/',
    ensures
        parent_link(p + seg + Seq::new(extra + 1, |i: int| '/')) == if p.len() == 0 {
            seq!['/']
        } else {
            p
        },
{
    let slashes = Seq::new(extra + 1, |i: int| '/');
    let base = p + seg + slashes;
    assert(seg.last() != '/') by {
        assert(seg[seg.len() - 1] == seg.last());
    }
    lemma_trim_slashes(p + seg, extra + 1);
    assert(trim_trailing_slashes(base) == p + seg);
    lemma_last_slash_skips_tail(p, seg);
    if p.len() == 0 {
        assert(last_slash(p) == -1);
    } else {
        assert(last_slash(p) == p.len() - 1);
        assert((p + seg).take(p.len() as int) == p);
    }
}

proof fn lemma_trim_slashes(t: Seq<char>, k: nat)
    requires
        t.len() > 0,
        t.last() != '/',
    ensures
        trim_trailing_slashes(t + Seq::new(k, |i: int| '/')) == t,
    decreases k,
{
    let s = t + Seq::new(k, |i: int| '/');
    if k == 0 {
        assert(s == t);
    } else {
        assert(s.drop_last() == t + Seq::new((k - 1) as nat, |i: int| '/'));
        assert(s.last() == '/');
        lemma_trim_slashes(t, (k - 1) as nat);
    }
}

/// A `String` holding the first `n` characters of `v`.
fn prefix_string(v: &Vec<char>, n: usize) -> (out: String)
    requires
        n <= v.len(),
    ensures
        out@ == v@.take(n as int),
{
    let mut out = String::new();
    for i in 0..n
        invariant
            n <= v.len(),
            out@ == v@.take(i as int),
    {
        out.push(v[i]);
    }
    out
}

/// The link to the parent of the directory whose link base is `base`.
fn parent_of(base: &Vec<char>) -> (out: String)
    ensures
        out@ == parent_link(base@),
{
    let mut t: usize = base.len();
    assert(base@.take(t as int) == base@);
    while t > 0 && base[t - 1] == '/'
        invariant
            t <= base.len(),
            trim_trailing_slashes(base@) == trim_trailing_slashes(base@.take(t as int)),
        decreases t,
    {
        assert(base@.take(t as int).drop_last() == base@.take(t - 1));
        t = t - 1;
    }
    let ghost trimmed = base@.take(t as int);
    assert(trim_trailing_slashes(trimmed) == trimmed);
    let mut k: usize = t;
    while k > 0 && base[k - 1] != '/'
        invariant
            k <= t <= base.len(),
            trimmed == base@.take(t as int),
            last_slash(trimmed) == last_slash(base@.take(k as int)),
        decreases k,
    {
        assert(base@.take(k as int).drop_last() == base@.take(k - 1));
        k = k - 1;
    }
    if k > 0 {
        assert(last_slash(base@.take(k as int)) == k - 1);
        assert(trimmed.take(k as int) == base@.take(k as int));
        prefix_string(base, k)
    } else {
        let mut out = String::new();
        out.push('/');
        out
    }
}

fn append_entry_line(html: &mut String, base: &String, e: &DirEntry)
    ensures
        final(html)@ == old(html)@ + entry_line(base@, *e),
{
    let encoded = percent_encode_segment(e.name.as_str());
    let shown = escape_html(e.name.as_str());
    html.append("<li><a href=\"");
    html.append(base.as_str());
    html.append(encoded.as_str());
    if e.is_dir {
        html.append("/\">");
        html.append(shown.as_str());
        html.append("/</a></li>\n");
    } else {
        html.append("\">");
        html.append(shown.as_str());
        html.append("</a></li>\n");
    }
    assert(html@ =~= old(html)@ + entry_line(base@, *e));
}

/// Renders the listing page of a directory reached by `url_path`: the
/// entries sorted by name, each linked under the URL path with a trailing
/// slash, and a link to the parent unless the directory is the root.
pub fn directory_listing(url_path: &str, entries: &Vec<DirEntry>) -> (html: String)
    ensures
        html@ == listing_html(url_path@, entries@),
{
    let url = chars_of(url_path);
    let mut base = url_path.to_owned();
    if !(url.len() > 0 && url[url.len() - 1] == '/') {
        base.push('/');
    }
    let base_chars = chars_of(base.as_str());
    let title = escape_html(url_path);
    let mut html = String::new();
    html.append("<!doctype html><meta charset=utf-8><title>Index of ");
    html.append(title.as_str());
    html.append("</title>\n<h1>Index of ");
    html.append(title.as_str());
    html.append("</h1>\n<ul>\n");
    assert(html@ == listing_head(url_path@));
    let ghost head = html@;
    if !(base_chars.len() == 1 && base_chars[0] == '/') {
        let parent = parent_of(&base_chars);
        html.append("<li><a href=\"");
        html.append(parent.as_str());
        html.append("\">../</a></li>\n");
        proof {
            assert(base@ != seq!['/']) by {
                if base@ == seq!['/'] {
                    assert(base_chars@.len() == 1 && base_chars@[0] == '/');
                }
            }
        }
    } else {
        assert(base@ =~= seq!['/']);
    }
    assert(html@ =~= head + parent_line(base@));
    let ghost top = html@;
    let sorted = sort_entries(entries);
    for i in 0..sorted.len()
        invariant
            html@ == top + entry_lines(base@, sorted@.take(i as int)),
    {
        let ghost before = html@;
        append_entry_line(&mut html, &base, &sorted[i]);
        proof {
            assert(sorted@.take(i + 1).drop_last() == sorted@.take(i as int));
            assert(sorted@.take(i + 1).last() == sorted@[i as int]);
        }
    }
    assert(sorted@.take(sorted.len() as int) == sorted@);
    html.append("</ul>\n");
    html
}

} // verus!
