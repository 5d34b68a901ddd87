//! The test server's subpage tree: a fixed set of randomly named pages with
//! random bodies, an index that lists them one path per line, and lookup of
//! one page by its name.

use crate::rng::{is_alnum_byte, sample_alnum_bytes, sample_bytes};
use vstd::prelude::*;

verus! {

/// How many subpages the tree offers.
pub const SUBPAGE_QTY: usize = 10;

/// The length of each page's name.
pub const SUBPAGE_NAME_LEN: usize = 8;

/// The length of each page's body.
pub const SUBPAGE_BODY_LEN: usize = 1024;

/// How many random names the generator may try in all before deterministic
/// completion takes over: collisions on names this long are vanishingly
/// rare, but the attempt count keeps the random phase finite whatever the
/// draws, and a provably fresh name fills any slot still open after it.
pub const GEN_ATTEMPT_BUDGET: usize = 1024;

/// A response as the service decides it: a status code and a body.
#[derive(Debug)]
pub struct PageResponse {
    pub status: u16,
    pub body: Vec<u8>,
}

/// The names of the stored pages, in storage order.
pub open spec fn names_of(data: Seq<(Vec<u8>, Vec<u8>)>) -> Seq<Seq<u8>> {
    data.map_values(|p: (Vec<u8>, Vec<u8>)| p.0@)
}

/// Strict lexicographic order on byte strings: a proper prefix comes first,
/// otherwise the first differing byte decides.
pub open spec fn lex_lt(a: Seq<u8>, b: Seq<u8>) -> bool
    decreases a.len() + b.len(),
{
    if b.len() == 0 {
        false
    } else if a.len() == 0 {
        true
    } else if a[0] < b[0] {
        true
    } else if a[0] > b[0] {
        false
    } else {
        lex_lt(a.drop_first(), b.drop_first())
    }
}

proof fn lemma_lex_lt_irrefl(a: Seq<u8>)
    ensures
        !lex_lt(a, a),
    decreases a.len(),
{
    if a.len() > 0 {
        lemma_lex_lt_irrefl(a.drop_first());
    }
}

proof fn lemma_lex_lt_neq(a: Seq<u8>, b: Seq<u8>)
    requires
        lex_lt(a, b),
    ensures
        a != b,
{
    lemma_lex_lt_irrefl(a);
}

/// Any two byte strings are equal or ordered one way.
proof fn lemma_lex_lt_total(a: Seq<u8>, b: Seq<u8>)
    ensures
        a == b || lex_lt(a, b) || lex_lt(b, a),
    decreases a.len() + b.len(),
{
    if a.len() == 0 && b.len() == 0 {
        assert(a =~= b);
    } else if a.len() > 0 && b.len() > 0 && a[0] == b[0] {
        lemma_lex_lt_total(a.drop_first(), b.drop_first());
        if a.drop_first() == b.drop_first() {
            assert(a.drop_first().len() == b.drop_first().len());
            assert(a.len() == b.len());
            assert forall|i: int| 0 <= i < a.len() implies a[i] == b[i] by {
                if i > 0 {
                    assert(a.drop_first()[i - 1] == a[i]);
                    assert(b.drop_first()[i - 1] == b[i]);
                }
            }
            assert(a =~= b);
        }
    }
}

proof fn lemma_lex_lt_trans(a: Seq<u8>, b: Seq<u8>, c: Seq<u8>)
    requires
        lex_lt(a, b),
        lex_lt(b, c),
    ensures
        lex_lt(a, c),
    decreases a.len() + b.len() + c.len(),
{
    if a.len() > 0 {
        assert(b.len() > 0);
        assert(c.len() > 0);
        if a[0] == b[0] && b[0] == c[0] {
            lemma_lex_lt_trans(a.drop_first(), b.drop_first(), c.drop_first());
        }
    }
}

/// Every page has a name of the fixed length in alphanumeric bytes and a
/// body of the fixed length; the names are distinct and stored in ascending
/// lexicographic order.
pub open spec fn pages_wf(data: Seq<(Vec<u8>, Vec<u8>)>) -> bool {
    &&& forall|i: int|
        0 <= i < data.len() ==> (#[trigger] data[i]).0@.len() == SUBPAGE_NAME_LEN
            && data[i].1@.len() == SUBPAGE_BODY_LEN && (forall|k: int|
            0 <= k < data[i].0@.len() ==> is_alnum_byte(#[trigger] data[i].0@[k]))
    &&& forall|i: int, j: int|
        0 <= i < j < data.len() ==> (#[trigger] data[i]).0@ != (#[trigger] data[j]).0@
    &&& forall|i: int, j: int|
        0 <= i < j < data.len() ==> lex_lt((#[trigger] data[i]).0@, (#[trigger] data[j]).0@)
}

/// The body a page lookup yields: the first stored page of that name, if
/// any. Names are unique, so "first" is "the" page.
pub open spec fn lookup(data: Seq<(Vec<u8>, Vec<u8>)>, key: Seq<u8>) -> Option<Seq<u8>>
    decreases data.len(),
{
    if data.len() == 0 {
        None
    } else if data[0].0@ == key {
        Some(data[0].1@)
    } else {
        lookup(data.drop_first(), key)
    }
}

/// One line of the index: `/<path>/<name>` and a newline.
pub open spec fn index_line(path: Seq<u8>, name: Seq<u8>) -> Seq<u8> {
    seq![47u8] + path + seq![47u8] + name + seq![10u8]
}

/// The whole index body: one line per page, in storage order.
pub open spec fn index_body_of(path: Seq<u8>, names: Seq<Seq<u8>>) -> Seq<u8>
    decreases names.len(),
{
    if names.len() == 0 {
        Seq::empty()
    } else {
        index_body_of(path, names.drop_last()) + index_line(path, names.last())
    }
}

/// A path with every leading and trailing slash removed.
pub open spec fn trim_slashes(s: Seq<u8>) -> Seq<u8>
    decreases s.len(),
{
    if s.len() > 0 && s[0] == 47 {
        trim_slashes(s.drop_first())
    } else if s.len() > 0 && s.last() == 47 {
        trim_slashes(s.drop_last())
    } else {
        s
    }
}

/// A request path with every leading slash removed.
pub open spec fn trim_leading_slashes(s: Seq<u8>) -> Seq<u8>
    decreases s.len(),
{
    if s.len() > 0 && s[0] == 47 {
        trim_leading_slashes(s.drop_first())
    } else {
        s
    }
}

/// Whether two byte strings hold the same bytes.
pub fn bytes_eq(a: &[u8], b: &[u8]) -> (r: bool)
    ensures
        r <==> a@ == b@,
{
    if a.len() != b.len() {
        return false;
    }
    let mut i: usize = 0;
    while i < a.len()
        invariant
            i <= a@.len(),
            a@.len() == b@.len(),
            forall|k: int| 0 <= k < i ==> a@[k] == b@[k],
        decreases a@.len() - i,
    {
        if a[i] != b[i] {
            return false;
        }
        i = i + 1;
    }
    proof {
        assert(a@ =~= b@);
    }
    true
}

/// Appends a byte string to a buffer.
fn append_bytes(dst: &mut Vec<u8>, src: &[u8])
    ensures
        final(dst)@ == old(dst)@ + src@,
{
    let mut i: usize = 0;
    while i < src.len()
        invariant
            i <= src@.len(),
            dst@ == old(dst)@ + src@.take(i as int),
        decreases src@.len() - i,
    {
        dst.push(src[i]);
        proof {
            assert(old(dst)@ + src@.take(i as int + 1) =~= (old(dst)@ + src@.take(i as int)).push(
                src@[i as int],
            ));
        }
        i = i + 1;
    }
    proof {
        assert(src@.take(src@.len() as int) =~= src@);
        assert(dst@ =~= old(dst)@ + src@);
    }
}

/// Strips every leading and trailing slash of a mount path.
fn trim_slashes_exec(s: &[u8]) -> (r: Vec<u8>)
    ensures
        r@ == trim_slashes(s@),
{
    let mut lo: usize = 0;
    let mut hi: usize = s.len();
    proof {
        assert(s@.subrange(0, s@.len() as int) =~= s@);
    }
    while lo < hi && s[lo] == 47
        invariant
            0 <= lo <= hi <= s@.len(),
            hi == s@.len(),
            trim_slashes(s@) == trim_slashes(s@.subrange(lo as int, hi as int)),
        decreases hi - lo,
    {
        proof {
            assert(s@.subrange(lo as int, hi as int).drop_first() =~= s@.subrange(
                lo as int + 1,
                hi as int,
            ));
        }
        lo = lo + 1;
    }
    while lo < hi && s[hi - 1] == 47
        invariant
            0 <= lo <= hi <= s@.len(),
            lo < hi ==> s@[lo as int] != 47,
            trim_slashes(s@) == trim_slashes(s@.subrange(lo as int, hi as int)),
        decreases hi - lo,
    {
        proof {
            assert(s@.subrange(lo as int, hi as int).drop_last() =~= s@.subrange(
                lo as int,
                hi as int - 1,
            ));
        }
        hi = hi - 1;
    }
    let mut r: Vec<u8> = Vec::new();
    let mut i: usize = lo;
    while i < hi
        invariant
            lo <= i <= hi <= s@.len(),
            r@ == s@.subrange(lo as int, i as int),
        decreases hi - i,
    {
        r.push(s[i]);
        proof {
            assert(s@.subrange(lo as int, i as int + 1) =~= s@.subrange(lo as int, i as int).push(
                s@[i as int],
            ));
        }
        i = i + 1;
    }
    proof {
        assert(trim_slashes(s@.subrange(lo as int, hi as int)) == s@.subrange(
            lo as int,
            hi as int,
        ));
    }
    r
}

/// Strips every leading slash of a request path.
fn trim_leading_slashes_exec(s: &[u8]) -> (r: Vec<u8>)
    ensures
        r@ == trim_leading_slashes(s@),
{
    let mut lo: usize = 0;
    let n = s.len();
    proof {
        assert(s@.subrange(0, s@.len() as int) =~= s@);
    }
    while lo < n && s[lo] == 47
        invariant
            0 <= lo <= n,
            n == s@.len(),
            trim_leading_slashes(s@) == trim_leading_slashes(s@.subrange(lo as int, n as int)),
        decreases n - lo,
    {
        proof {
            assert(s@.subrange(lo as int, n as int).drop_first() =~= s@.subrange(
                lo as int + 1,
                n as int,
            ));
        }
        lo = lo + 1;
    }
    let mut r: Vec<u8> = Vec::new();
    let mut i: usize = lo;
    while i < n
        invariant
            lo <= i <= n <= s@.len(),
            n == s@.len(),
            r@ == s@.subrange(lo as int, i as int),
        decreases n - i,
    {
        r.push(s[i]);
        proof {
            assert(s@.subrange(lo as int, i as int + 1) =~= s@.subrange(lo as int, i as int).push(
                s@[i as int],
            ));
        }
        i = i + 1;
    }
    proof {
        assert(trim_leading_slashes(s@.subrange(lo as int, n as int)) == s@.subrange(
            lo as int,
            n as int,
        ));
        assert(r@ =~= s@.subrange(lo as int, n as int));
    }
    r
}

/// Whether a name is already taken.
fn contains_name(data: &Vec<(Vec<u8>, Vec<u8>)>, name: &[u8]) -> (r: bool)
    ensures
        r <==> exists|k: int| 0 <= k < data@.len() && (#[trigger] data@[k]).0@ == name@,
{
    let mut i: usize = 0;
    while i < data.len()
        invariant
            i <= data@.len(),
            forall|k: int| 0 <= k < i ==> (#[trigger] data@[k]).0@ != name@,
        decreases data@.len() - i,
    {
        if bytes_eq(data[i].0.as_slice(), name) {
            return true;
        }
        i = i + 1;
    }
    false
}

/// Whether `a` comes strictly before `b` in lexicographic byte order.
fn lex_lt_exec(a: &[u8], b: &[u8]) -> (r: bool)
    ensures
        r == lex_lt(a@, b@),
{
    let mut i: usize = 0;
    proof {
        assert(a@.skip(0) =~= a@);
        assert(b@.skip(0) =~= b@);
    }
    while i < a.len() && i < b.len()
        invariant
            i <= a@.len(),
            i <= b@.len(),
            lex_lt(a@, b@) == lex_lt(a@.skip(i as int), b@.skip(i as int)),
        decreases a@.len() - i,
    {
        proof {
            assert(a@.skip(i as int).drop_first() =~= a@.skip(i as int + 1));
            assert(b@.skip(i as int).drop_first() =~= b@.skip(i as int + 1));
        }
        if a[i] < b[i] {
            return true;
        }
        if a[i] > b[i] {
            return false;
        }
        i = i + 1;
    }
    proof {
        assert(a@.skip(i as int).len() == a@.len() - i);
        assert(b@.skip(i as int).len() == b@.len() - i);
    }
    a.len() < b.len()
}

/// The byte standing for value `c` in the 62-character alphanumeric
/// alphabet, digits first, then upper case, then lower case.
pub open spec fn digit62(c: int) -> u8 {
    if 0 <= c < 10 {
        (48 + c) as u8
    } else if 10 <= c < 36 {
        (55 + c) as u8
    } else if 36 <= c < 62 {
        (61 + c) as u8
    } else {
        0
    }
}

/// The `c`-th deterministic fallback name: a run of `A`s and one varying
/// last byte, so any two of the first 62 differ.
pub open spec fn fallback_name(c: int) -> Seq<u8> {
    Seq::new((SUBPAGE_NAME_LEN - 1) as nat, |k: int| 65u8).push(digit62(c))
}

/// Whether some stored page already carries the `c`-th fallback name.
pub open spec fn fallback_taken(data: Seq<(Vec<u8>, Vec<u8>)>, c: int) -> bool {
    exists|k: int| 0 <= k < data.len() && (#[trigger] data[k]).0@ == fallback_name(c)
}

proof fn lemma_fallback_name_distinct(c1: int, c2: int)
    requires
        0 <= c1 < c2 < 62,
    ensures
        fallback_name(c1) != fallback_name(c2),
{
    assert(digit62(c1) != digit62(c2));
    assert(fallback_name(c1).last() == digit62(c1));
    assert(fallback_name(c2).last() == digit62(c2));
}

/// Fewer pages than candidate names means some candidate is still free:
/// were all of the `len + 1` distinct candidates taken, the `len` distinct
/// stored names would hold a larger set than themselves.
proof fn lemma_some_fallback_free(data: Seq<(Vec<u8>, Vec<u8>)>)
    requires
        pages_wf(data),
        data.len() + 1 < 62,
    ensures
        exists|c: int| 0 <= c <= data.len() && !fallback_taken(data, c),
{
    broadcast use vstd::set::group_set_axioms;

    let n = data.len() as int;
    if forall|c: int| 0 <= c <= n ==> #[trigger] fallback_taken(data, c) {
        let cands = Seq::new((n + 1) as nat, |c: int| fallback_name(c));
        assert(cands.no_duplicates()) by {
            assert forall|i: int, j: int|
                0 <= i < cands.len() && 0 <= j < cands.len() && i != j implies cands[i]
                != cands[j] by {
                if i < j {
                    lemma_fallback_name_distinct(i, j);
                } else {
                    lemma_fallback_name_distinct(j, i);
                }
            }
        }
        let names = names_of(data);
        assert(names.no_duplicates()) by {
            assert forall|i: int, j: int|
                0 <= i < names.len() && 0 <= j < names.len() && i != j implies names[i]
                != names[j] by {
                assert(names[i] == data[i].0@);
                assert(names[j] == data[j].0@);
            }
        }
        assert forall|x: Seq<u8>| cands.to_set().contains(x) implies names.to_set().contains(
            x,
        ) by {
            let c = choose|c: int| 0 <= c < cands.len() && cands[c] == x;
            assert(fallback_taken(data, c));
            let k = choose|k: int| 0 <= k < data.len() && (#[trigger] data[k]).0@ == fallback_name(
                c,
            );
            assert(names[k] == x);
            assert(names.contains(x));
        }
        assert(cands.to_set().subset_of(names.to_set()));
        cands.unique_seq_to_set();
        names.unique_seq_to_set();
        vstd::seq_lib::seq_to_set_is_finite(names);
        vstd::set_lib::lemma_len_subset(cands.to_set(), names.to_set());
        assert(false);
    }
}

/// Builds the `c`-th deterministic fallback name.
fn fallback_name_exec(c: usize) -> (name: Vec<u8>)
    requires
        c < 62,
    ensures
        name@ == fallback_name(c as int),
{
    let mut name: Vec<u8> = Vec::new();
    let mut i: usize = 0;
    while i < SUBPAGE_NAME_LEN - 1
        invariant
            i <= SUBPAGE_NAME_LEN - 1,
            name@.len() == i,
            forall|k: int| 0 <= k < i ==> (#[trigger] name@[k]) == 65u8,
        decreases SUBPAGE_NAME_LEN - 1 - i,
    {
        name.push(65);
        i = i + 1;
    }
    let d: u8 = if c < 10 {
        48 + c as u8
    } else if c < 36 {
        55 + c as u8
    } else {
        61 + c as u8
    };
    name.push(d);
    proof {
        assert(name@ =~= fallback_name(c as int));
    }
    name
}

/// A name no stored page carries, found deterministically: the first free
/// fallback name, which exists because there is one more candidate than
/// there are pages.
fn fresh_name(data: &Vec<(Vec<u8>, Vec<u8>)>) -> (name: Vec<u8>)
    requires
        pages_wf(data@),
        data@.len() + 1 < 62,
    ensures
        name@.len() == SUBPAGE_NAME_LEN,
        forall|k: int| 0 <= k < name@.len() ==> is_alnum_byte(#[trigger] name@[k]),
        forall|k: int| 0 <= k < data@.len() ==> (#[trigger] data@[k]).0@ != name@,
{
    let n = data.len();
    let mut c: usize = 0;
    while c <= n
        invariant
            c <= n + 1,
            n == data@.len(),
            n + 1 < 62,
            pages_wf(data@),
            forall|x: int| 0 <= x < c ==> #[trigger] fallback_taken(data@, x),
        decreases n + 1 - c,
    {
        let name = fallback_name_exec(c);
        if !contains_name(data, name.as_slice()) {
            proof {
                assert(forall|k: int|
                    0 <= k < name@.len() ==> is_alnum_byte(#[trigger] name@[k]));
            }
            return name;
        }
        proof {
            assert(fallback_taken(data@, c as int));
        }
        c = c + 1;
    }
    proof {
        lemma_some_fallback_free(data@);
        let cf = choose|cf: int| 0 <= cf <= data@.len() && !fallback_taken(data@, cf);
        assert(fallback_taken(data@, cf));
        assert(false);
    }
    Vec::new()
}

/// Inserts one fresh page at its sorted position, keeping the names in
/// ascending lexicographic order.
fn insert_page(data: &mut Vec<(Vec<u8>, Vec<u8>)>, name: Vec<u8>, body: Vec<u8>)
    requires
        pages_wf(old(data)@),
        old(data)@.len() < usize::MAX,
        name@.len() == SUBPAGE_NAME_LEN,
        forall|k: int| 0 <= k < name@.len() ==> is_alnum_byte(#[trigger] name@[k]),
        body@.len() == SUBPAGE_BODY_LEN,
        forall|k: int| 0 <= k < old(data)@.len() ==> (#[trigger] old(data)@[k]).0@ != name@,
    ensures
        pages_wf(final(data)@),
        final(data)@.len() == old(data)@.len() + 1,
{
    let ghost d0 = data@;
    let ghost nv = name@;
    let mut p: usize = 0;
    while p < data.len() && lex_lt_exec(data[p].0.as_slice(), name.as_slice())
        invariant
            p <= data@.len(),
            data@ == d0,
            name@ == nv,
            forall|k: int| 0 <= k < p ==> lex_lt((#[trigger] d0[k]).0@, nv),
        decreases data@.len() - p,
    {
        p = p + 1;
    }
    proof {
        if p < d0.len() {
            lemma_lex_lt_total(nv, d0[p as int].0@);
            assert(lex_lt(nv, d0[p as int].0@));
        }
    }
    let pair = (name, body);
    let ghost pv = pair;
    data.insert(p, pair);
    proof {
        d0.insert_ensures(p as int, pv);
        assert(data@ == d0.insert(p as int, pv));
        let d1 = data@;
        assert forall|i: int, j: int| 0 <= i < j < d1.len() implies lex_lt(
            (#[trigger] d1[i]).0@,
            (#[trigger] d1[j]).0@,
        ) by {
            if j < p {
                assert(d1[i] == d0[i] && d1[j] == d0[j]);
            } else if j == p {
                assert(d1[i] == d0[i]);
                assert(d1[j].0@ == nv);
            } else {
                assert(d1[j] == d0[j - 1]);
                if i < p {
                    assert(d1[i] == d0[i]);
                    if i == j - 1 {
                        assert(false);
                    }
                } else if i == p {
                    assert(d1[i].0@ == nv);
                    if j - 1 == p {
                        assert(lex_lt(nv, d0[p as int].0@));
                    } else {
                        lemma_lex_lt_trans(nv, d0[p as int].0@, d0[j - 1].0@);
                    }
                } else {
                    assert(d1[i] == d0[i - 1]);
                }
            }
        }
        assert forall|i: int, j: int| 0 <= i < j < d1.len() implies (#[trigger] d1[i]).0@ != (
        #[trigger] d1[j]).0@ by {
            lemma_lex_lt_neq(d1[i].0@, d1[j].0@);
        }
        assert forall|i: int| 0 <= i < d1.len() implies (#[trigger] d1[i]).0@.len()
            == SUBPAGE_NAME_LEN && d1[i].1@.len() == SUBPAGE_BODY_LEN && (forall|k: int|
            0 <= k < d1[i].0@.len() ==> is_alnum_byte(#[trigger] d1[i].0@[k])) by {
            if i < p {
                assert(d1[i] == d0[i]);
            } else if i == p {
                assert(d1[i] == pv);
            } else {
                assert(d1[i] == d0[i - 1]);
            }
        }
    }
}

/// Draws the page set: exactly the fixed number of pages, each with a fresh
/// name and a random body, stored in ascending name order. Random names are
/// tried first, colliding draws discarded, within an overall attempt
/// budget; any slot still open after the budget — unseen in practice at
/// this name length — takes the first free deterministic name.
pub fn gen_subpages(rng: &mut rand::rngs::ThreadRng) -> (data: Vec<(Vec<u8>, Vec<u8>)>)
    ensures
        pages_wf(data@),
        data@.len() == SUBPAGE_QTY,
{
    let mut data: Vec<(Vec<u8>, Vec<u8>)> = Vec::new();
    let mut attempts: usize = 0;
    while data.len() < SUBPAGE_QTY && attempts < GEN_ATTEMPT_BUDGET
        invariant
            pages_wf(data@),
            data@.len() <= SUBPAGE_QTY,
            attempts <= GEN_ATTEMPT_BUDGET,
        decreases GEN_ATTEMPT_BUDGET - attempts,
    {
        attempts = attempts + 1;
        let name = sample_alnum_bytes(rng, SUBPAGE_NAME_LEN);
        if !contains_name(&data, name.as_slice()) {
            let body = sample_bytes(rng, SUBPAGE_BODY_LEN);
            insert_page(&mut data, name, body);
        }
    }
    while data.len() < SUBPAGE_QTY
        invariant
            pages_wf(data@),
            data@.len() <= SUBPAGE_QTY,
        decreases SUBPAGE_QTY - data.len(),
    {
        let name = fresh_name(&data);
        let body = sample_bytes(rng, SUBPAGE_BODY_LEN);
        insert_page(&mut data, name, body);
    }
    data
}

/// The subpage tree behind one mount path.
#[derive(Debug)]
pub struct SubpageService {
    /// The mount path, stored without leading or trailing slashes.
    pub path: Vec<u8>,
    /// The pages: name and body, names unique and in ascending order.
    pub data: Vec<(Vec<u8>, Vec<u8>)>,
}

impl SubpageService {
    pub open spec fn wf(&self) -> bool {
        pages_wf(self.data@)
    }

    /// Mounts a fresh random page set at the given path, with the path's
    /// surrounding slashes stripped.
    pub fn new(path: &[u8], rng: &mut rand::rngs::ThreadRng) -> (s: SubpageService)
        ensures
            s.wf(),
            s.path@ == trim_slashes(path@),
            s.data@.len() == SUBPAGE_QTY,
    {
        let path = trim_slashes_exec(path);
        let data = gen_subpages(rng);
        SubpageService { path, data }
    }

    /// The index: status 200 and one line per page, `/<path>/<name>`, in
    /// storage order.
    pub fn index_response(&self) -> (r: PageResponse)
        ensures
            r.status == 200,
            r.body@ == index_body_of(self.path@, names_of(self.data@)),
    {
        let mut body: Vec<u8> = Vec::new();
        let mut i: usize = 0;
        while i < self.data.len()
            invariant
                i <= self.data@.len(),
                body@ == index_body_of(self.path@, names_of(self.data@).take(i as int)),
            decreases self.data@.len() - i,
        {
            let ghost before = body@;
            body.push(47);
            append_bytes(&mut body, self.path.as_slice());
            body.push(47);
            append_bytes(&mut body, self.data[i].0.as_slice());
            body.push(10);
            proof {
                let nm = names_of(self.data@);
                assert(body@ =~= before + index_line(self.path@, nm[i as int]));
                assert(nm.take(i as int + 1).drop_last() =~= nm.take(i as int));
                assert(nm.take(i as int + 1).last() == nm[i as int]);
            }
            i = i + 1;
        }
        proof {
            assert(names_of(self.data@).take(self.data@.len() as int) =~= names_of(self.data@));
        }
        PageResponse { status: 200, body }
    }

    /// One page by name: its body with status 200, or status 404 and the
    /// literal body `404` with a newline when no page has that name.
    pub fn subpage_response(&self, key: &[u8]) -> (r: PageResponse)
        ensures
            match lookup(self.data@, key@) {
                Some(b) => r.status == 200 && r.body@ == b,
                None => r.status == 404 && r.body@ == seq![52u8, 48u8, 52u8, 10u8],
            },
    {
        let mut i: usize = 0;
        proof {
            assert(self.data@.skip(0) =~= self.data@);
        }
        while i < self.data.len()
            invariant
                i <= self.data@.len(),
                lookup(self.data@, key@) == lookup(self.data@.skip(i as int), key@),
            decreases self.data@.len() - i,
        {
            proof {
                assert(self.data@.skip(i as int)[0] == self.data@[i as int]);
                assert(self.data@.skip(i as int).drop_first() =~= self.data@.skip(i as int + 1));
            }
            if bytes_eq(self.data[i].0.as_slice(), key) {
                let mut body: Vec<u8> = Vec::new();
                append_bytes(&mut body, self.data[i].1.as_slice());
                proof {
                    assert(body@ =~= self.data@[i as int].1@);
                }
                return PageResponse { status: 200, body };
            }
            i = i + 1;
        }
        proof {
            assert(self.data@.skip(self.data@.len() as int).len() == 0);
        }
        let body: Vec<u8> = vec![52, 48, 52, 10];
        proof {
            assert(body@ =~= seq![52u8, 48u8, 52u8, 10u8]);
        }
        PageResponse { status: 404, body }
    }

    /// Routes one request by its path below the mount: an empty path — any
    /// run of slashes — is the index, anything else looks up that page.
    pub fn handle_request(&self, reqpath: &[u8]) -> (r: PageResponse)
        ensures
            trim_leading_slashes(reqpath@).len() == 0 ==> r.status == 200 && r.body@
                == index_body_of(self.path@, names_of(self.data@)),
            trim_leading_slashes(reqpath@).len() > 0 ==> match lookup(
                self.data@,
                trim_leading_slashes(reqpath@),
            ) {
                Some(b) => r.status == 200 && r.body@ == b,
                None => r.status == 404 && r.body@ == seq![52u8, 48u8, 52u8, 10u8],
            },
    {
        let p = trim_leading_slashes_exec(reqpath);
        if p.len() == 0 {
            self.index_response()
        } else {
            self.subpage_response(p.as_slice())
        }
    }
}

} // verus!
