//! Domain matching against an immutable snapshot of blocked names.

use vstd::prelude::*;
use std::collections::HashMap;

verus! {

/// ASCII case folding of one character; other characters are left alone.
pub open spec fn lower(c: char) -> char {
    if 'A' <= c && c <= 'Z' {
        ((c as u32 + 32) as u8) as char
    } else {
        c
    }
}

pub open spec fn lower_seq(s: Seq<char>) -> Seq<char> {
    s.map_values(|c: char| lower(c))
}

/// Every character is ASCII.
pub open spec fn is_ascii_text(s: Seq<char>) -> bool {
    forall|i: int| 0 <= i < s.len() ==> (#[trigger] s[i] as u32) < 128
}

/// What `str::to_lowercase` makes of a string.
pub uninterp spec fn lower_of(s: Seq<char>) -> Seq<char>;

/// The lower-case form of a name: on ASCII text, `A`-`Z` folded to `a`-`z`
/// and everything else kept; on other text, what `str::to_lowercase` gives.
pub open spec fn lowered(s: Seq<char>) -> Seq<char> {
    if is_ascii_text(s) {
        lower_seq(s)
    } else {
        lower_of(s)
    }
}

/// Canonical form of a domain name: lower case, one trailing root dot removed.
pub open spec fn canonical(s: Seq<char>) -> Seq<char> {
    let l = lowered(s);
    if l.len() > 0 && l.last() == '.' {
        l.drop_last()
    } else {
        l
    }
}

pub open spec fn has_dot_from(n: Seq<char>, p: int) -> bool {
    exists|j: int| p <= j < n.len() && n[j] == '.'
}

/// Position `p` starts a suffix of `n` that the matcher consults: the whole name,
/// or the tail after a dot when that tail still has at least two labels.
pub open spec fn is_candidate(n: Seq<char>, p: int) -> bool {
    0 <= p <= n.len() && (p == 0 || (n[p - 1] == '.' && has_dot_from(n, p)))
}

/// The name, or one of its parent domains of two labels or more, is listed.
pub open spec fn blocked(set: Set<Seq<char>>, name: Seq<char>) -> bool {
    let n = canonical(name);
    exists|p: int| #[trigger] is_candidate(n, p) && set.contains(n.subrange(p, n.len() as int))
}

/// What str::trim leaves of a line: the line without its leading and trailing
/// white space.
pub uninterp spec fn trimmed(s: Seq<char>) -> Seq<char>;

/// `t` is a contiguous part of `s`.
pub open spec fn is_part_of(t: Seq<char>, s: Seq<char>) -> bool {
    exists|i: int, j: int| 0 <= i <= j <= s.len() && t == s.subrange(i, j)
}

/// A visible ASCII character: never white space.
pub open spec fn is_visible_ascii(c: char) -> bool {
    '!' <= c && c <= '~'
}

/// A line with white space cut at both ends: a line that begins and ends with
/// a visible ASCII character is kept whole; otherwise what `str::trim` leaves.
pub open spec fn trim_of(s: Seq<char>) -> Seq<char> {
    if s.len() > 0 && is_visible_ascii(s[0]) && is_visible_ascii(s.last()) {
        s
    } else {
        trimmed(s)
    }
}

/// Relies on str::trim: a sub-slice of the line with white space cut at both
/// ends, so a contiguous part of it; a line that begins and ends with a visible
/// ASCII character comes back whole.
#[verifier::external_body]
fn trim_line(s: &str) -> (r: &str)
    ensures
        r@ == trimmed(s@),
        is_part_of(r@, s@),
        s@.len() > 0 && is_visible_ascii(s@[0]) && is_visible_ascii(s@.last()) ==> r@ == s@,
{
    s.trim()
}

/// Relies on str::to_lowercase: the lower-case mapping of each character.
/// On ASCII text it maps `A`-`Z` to `a`-`z` and keeps every other character.
#[verifier::external_body]
fn to_lowercase(s: &str) -> (r: String)
    ensures
        r@ == lower_of(s@),
        is_ascii_text(s@) ==> r@ == lower_seq(s@),
{
    s.to_lowercase()
}

/// The canonical form of `s`, as characters.
pub fn canonicalize(s: &str) -> (r: Vec<char>)
    ensures
        r@ == canonical(s@),
{
    let lowered = to_lowercase(s);
    let l = lowered.as_str();
    let n = l.unicode_len();
    let mut r: Vec<char> = Vec::new();
    let mut i: usize = 0;
    while i < n
        invariant
            n == l@.len(),
            i <= n,
            r@ == l@.subrange(0, i as int),
        decreases n - i,
    {
        r.push(l.get_char(i));
        i += 1;
        assert(r@ =~= l@.subrange(0, i as int));
    }
    assert(l@.subrange(0, n as int) =~= l@);
    if r.len() > 0 && r[r.len() - 1] == '.' {
        r.pop();
        assert(r@ =~= canonical(s@));
    }
    r
}

/// Offset basis of the 64-bit FNV-1a hash.
pub const FNV_OFFSET: u64 = 0xcbf2_9ce4_8422_2325;

/// Prime of the 64-bit FNV-1a hash.
pub const FNV_PRIME: u64 = 0x0000_0100_0000_01b3;

pub open spec fn fnv_step(h: u64, c: char) -> u64 {
    vstd::wrapping::u64_specs::wrapping_mul(h ^ (c as u32 as u64), FNV_PRIME)
}

/// The 64-bit FNV-1a hash of a name, one step per character.
pub open spec fn name_hash(s: Seq<char>) -> u64
    decreases s.len(),
{
    if s.len() == 0 {
        FNV_OFFSET
    } else {
        fnv_step(name_hash(s.drop_last()), s.last())
    }
}

/// The hash of `n` from position `p` to its end.
fn hash_from(n: &Vec<char>, p: usize) -> (r: u64)
    requires
        p <= n.len(),
    ensures
        r == name_hash(n@.subrange(p as int, n.len() as int)),
{
    let mut h: u64 = FNV_OFFSET;
    let mut q: usize = p;
    assert(n@.subrange(p as int, p as int).len() == 0);
    while q < n.len()
        invariant
            p <= q <= n.len(),
            h == name_hash(n@.subrange(p as int, q as int)),
        decreases n.len() - q,
    {
        h = (h ^ (n[q] as u32 as u64)).wrapping_mul(FNV_PRIME);
        let ghost next = n@.subrange(p as int, q + 1);
        assert(next.drop_last() =~= n@.subrange(p as int, q as int));
        assert(next.last() == n@[q as int]);
        q += 1;
    }
    h
}

/// Position `i` is in the bucket of hash `h`.
pub open spec fn in_bucket(index: Map<u64, Vec<usize>>, h: u64, i: int) -> bool {
    index.contains_key(h) && index[h]@.contains(i as usize)
}

/// An immutable set of canonical domain names, with a hash index over them.
/// Names of queries arrive in ASCII form (see `Question`), so entries for
/// internationalized names are written in their `xn--` encoding.
pub struct Blocklist {
    entries: Vec<Vec<char>>,
    index: HashMap<u64, Vec<usize>>,
}

/// Every entry is in the bucket of its hash, and every bucket holds positions
/// of entries.
pub open spec fn index_covers(entries: Seq<Vec<char>>, index: Map<u64, Vec<usize>>) -> bool {
    &&& forall|i: int| 0 <= i < entries.len() ==> in_bucket(index, name_hash(#[trigger] entries[i]@), i)
    &&& forall|h: u64, j: int|
        index.contains_key(h) && 0 <= j < index[h].len() ==> (#[trigger] index[h]@[j]) < entries.len()
}

impl Blocklist {
    #[verifier::type_invariant]
    closed spec fn indexed(&self) -> bool {
        index_covers(self.entries@, self.index@)
    }
}

proof fn lemma_index_push(entries: Seq<Vec<char>>, index: Map<u64, Vec<usize>>, c: Vec<char>, bucket: Vec<usize>)
    requires
        index_covers(entries, index),
        bucket@ == (if index.contains_key(name_hash(c@)) {
            index[name_hash(c@)]@
        } else {
            Seq::<usize>::empty()
        }).push(entries.len() as usize),
        entries.len() < usize::MAX,
    ensures
        index_covers(entries.push(c), index.insert(name_hash(c@), bucket)),
{
    let h = name_hash(c@);
    let es = entries.push(c);
    let ix = index.insert(h, bucket);
    assert forall|i: int| 0 <= i < es.len() implies in_bucket(ix, name_hash(#[trigger] es[i]@), i) by {
        if i < entries.len() {
            assert(es[i] == entries[i]);
            assert(in_bucket(index, name_hash(entries[i]@), i));
            if name_hash(entries[i]@) == h {
                let old_b = index[h]@;
                let j = choose|j: int| 0 <= j < old_b.len() && old_b[j] == i as usize;
                assert(bucket@[j] == i as usize);
            }
        } else {
            assert(bucket@[bucket@.len() - 1] == i as usize);
        }
    }
    assert forall|g: u64, j: int| ix.contains_key(g) && 0 <= j < ix[g].len() implies (#[trigger] ix[g]@[j]) < es.len() by {
        if g == h {
            if j < bucket@.len() - 1 {
                assert(ix[g]@[j] == index[h]@[j]);
            }
        }
    }
}

/// The names held by a list of entries.
pub open spec fn entry_set(entries: Seq<Vec<char>>) -> Set<Seq<char>> {
    Set::new(|d: Seq<char>| exists|k: int| 0 <= k < entries.len() && #[trigger] entries[k]@ == d)
}

impl View for Blocklist {
    type V = Set<Seq<char>>;

    closed spec fn view(&self) -> Set<Seq<char>> {
        entry_set(self.entries@)
    }
}

/// A trimmed line of a blocklist file that names a domain: not blank, not a
/// comment, and with a canonical form that is not empty (a lone `.` names
/// nothing).
pub open spec fn is_entry_line(t: Seq<char>) -> bool {
    t.len() > 0 && t[0] != '#' && canonical(t).len() > 0
}

/// The domains that a blocklist file of these lines names.
pub open spec fn listed_in(lines: Seq<Seq<char>>) -> Set<Seq<char>> {
    Set::new(
        |d: Seq<char>|
            exists|i: int|
                0 <= i < lines.len() && is_entry_line(trim_of(#[trigger] lines[i])) && d == canonical(
                    trim_of(lines[i]),
                ),
    )
}

proof fn lemma_listed_in_push(lines: Seq<Seq<char>>, l: Seq<char>)
    ensures
        listed_in(lines.push(l)) == if is_entry_line(trim_of(l)) {
            listed_in(lines).insert(canonical(trim_of(l)))
        } else {
            listed_in(lines)
        },
{
    let a = listed_in(lines.push(l));
    let b = if is_entry_line(trim_of(l)) {
        listed_in(lines).insert(canonical(trim_of(l)))
    } else {
        listed_in(lines)
    };
    assert forall|d: Seq<char>| a.contains(d) <==> b.contains(d) by {
        let ls = lines.push(l);
        if a.contains(d) {
            let i = choose|i: int|
                0 <= i < ls.len() && is_entry_line(trim_of(#[trigger] ls[i])) && d == canonical(trim_of(ls[i]));
            if i < lines.len() {
                assert(ls[i] == lines[i]);
            }
        }
        if listed_in(lines).contains(d) {
            let i = choose|i: int|
                0 <= i < lines.len() && is_entry_line(trim_of(#[trigger] lines[i])) && d == canonical(
                    trim_of(lines[i]),
                );
            assert(ls[i] == lines[i]);
        }
        if is_entry_line(trim_of(l)) && d == canonical(trim_of(l)) {
            assert(ls[lines.len() as int] == l);
        }
    }
    assert(a =~= b);
}

proof fn lemma_entry_set_push(entries: Seq<Vec<char>>, e: Vec<char>)
    ensures
        entry_set(entries.push(e)) == entry_set(entries).insert(e@),
{
    let a = entry_set(entries.push(e));
    let b = entry_set(entries).insert(e@);
    assert forall|d: Seq<char>| a.contains(d) <==> b.contains(d) by {
        let es = entries.push(e);
        if a.contains(d) {
            let k = choose|k: int| 0 <= k < es.len() && #[trigger] es[k]@ == d;
            if k < entries.len() {
                assert(es[k] == entries[k]);
            }
        }
        if entry_set(entries).contains(d) {
            let k = choose|k: int| 0 <= k < entries.len() && #[trigger] entries[k]@ == d;
            assert(es[k] == entries[k]);
        }
        if d == e@ {
            assert(es[entries.len() as int] == e);
        }
    }
    assert(a =~= b);
}

fn dot_from(n: &Vec<char>, p: usize) -> (r: bool)
    ensures
        r == has_dot_from(n@, p as int),
{
    let mut j: usize = p;
    while j < n.len()
        invariant
            p <= j,
            forall|i: int| p <= i < j ==> n@[i] != '.',
        decreases n.len() - j,
    {
        if n[j] == '.' {
            assert(p <= j && n@[j as int] == '.');
            return true;
        }
        j += 1;
    }
    false
}

fn suffix_equals(e: &Vec<char>, n: &Vec<char>, p: usize) -> (r: bool)
    requires
        p <= n.len(),
    ensures
        r == (e@ == n@.subrange(p as int, n.len() as int)),
{
    if e.len() != n.len() - p {
        return false;
    }
    let mut i: usize = 0;
    while i < e.len()
        invariant
            p <= n.len(),
            e.len() == n.len() - p,
            i <= e.len(),
            forall|j: int| 0 <= j < i ==> e@[j] == n@[p + j],
        decreases e.len() - i,
    {
        if e[i] != n[p + i] {
            return false;
        }
        i += 1;
    }
    assert(e@ =~= n@.subrange(p as int, n.len() as int));
    true
}

impl Blocklist {
    /// A blocklist that blocks nothing.
    pub fn new_empty() -> (r: Blocklist)
        ensures
            r@ == Set::<Seq<char>>::empty(),
    {
        let r = Blocklist { entries: Vec::new(), index: HashMap::new() };
        assert(r@ =~= Set::<Seq<char>>::empty());
        r
    }

    /// Builds the blocklist from the lines of a blocklist file: each line is
    /// trimmed, blank lines and lines starting with `#` are skipped, and the rest
    /// is kept in canonical form.
    pub fn from_lines(lines: &Vec<String>) -> (r: Blocklist)
        ensures
            r@ == listed_in(lines@.map_values(|l: String| l@)),
    {
        let ghost ls = lines@.map_values(|l: String| l@);
        let mut entries: Vec<Vec<char>> = Vec::new();
        let mut index: HashMap<u64, Vec<usize>> = HashMap::new();
        let mut i: usize = 0;
        assert(entry_set(entries@) =~= listed_in(ls.subrange(0, 0)));
        while i < lines.len()
            invariant
                i <= lines.len(),
                ls == lines@.map_values(|l: String| l@),
                entry_set(entries@) == listed_in(ls.subrange(0, i as int)),
                index_covers(entries@, index@),
                entries.len() <= i,
            decreases lines.len() - i,
        {
            let t = trim_line(lines[i].as_str());
            let c = canonicalize(t);
            let keep = t.unicode_len() > 0 && t.get_char(0) != '#' && c.len() > 0;
            proof {
                assert(ls[i as int] == lines[i as int]@);
                assert(t@ == trim_of(ls[i as int]));
                assert(ls.subrange(0, i + 1) =~= ls.subrange(0, i as int).push(ls[i as int]));
                lemma_listed_in_push(ls.subrange(0, i as int), ls[i as int]);
            }
            if keep {
                let h = hash_from(&c, 0);
                assert(c@.subrange(0, c@.len() as int) =~= c@);
                let ghost old_ix = index@;
                let mut bucket = match index.remove(&h) {
                    Some(b) => b,
                    None => Vec::new(),
                };
                bucket.push(entries.len());
                proof {
                    lemma_entry_set_push(entries@, c);
                    lemma_index_push(entries@, old_ix, c, bucket);
                }
                index.insert(h, bucket);
                assert(index@ =~= old_ix.insert(h, bucket));
                entries.push(c);
            }
            i += 1;
        }
        assert(ls.subrange(0, lines.len() as int) =~= ls);
        Blocklist { entries, index }
    }

    /// Whether `domain` is blocked: its canonical form, or one of its parent
    /// domains of at least two labels, is in the list. A bare top-level label in
    /// the list blocks only the query for that label itself.
    pub fn is_blocked(&self, domain: &str) -> (r: bool)
        ensures
            r == blocked(self@, domain@),
    {
        let n = canonicalize(domain);
        let len = n.len();
        if len == 0 {
            let r = self.contains_suffix(&n, 0);
            proof {
                if !r {
                    assert forall|q: int| #[trigger] is_candidate(n@, q) implies !self@.contains(
                        n@.subrange(q, len as int),
                    ) by {
                        assert(q == 0);
                    }
                } else {
                    assert(is_candidate(n@, 0));
                }
            }
            return r;
        }
        let mut p: usize = 0;
        while p < len
            invariant
                p <= len,
                n@ == canonical(domain@),
                len == n.len(),
                forall|q: int| 0 <= q < p && #[trigger] is_candidate(n@, q) ==> !self@.contains(n@.subrange(q, len as int)),
            decreases len - p,
        {
            let candidate = p == 0 || (n[p - 1] == '.' && dot_from(&n, p));
            if candidate && self.contains_suffix(&n, p) {
                assert(is_candidate(n@, p as int));
                return true;
            }
            p += 1;
        }
        proof {
            assert forall|q: int| #[trigger] is_candidate(n@, q) implies !self@.contains(n@.subrange(q, len as int)) by {
                if q == len {
                    assert(!has_dot_from(n@, q));
                }
            }
        }
        false
    }

    /// Whether the tail of `n` from position `p` is in the list: one hash
    /// lookup, then a comparison with each entry in that bucket.
    fn contains_suffix(&self, n: &Vec<char>, p: usize) -> (r: bool)
        requires
            p <= n.len(),
        ensures
            r == self@.contains(n@.subrange(p as int, n.len() as int)),
    {
        proof {
            use_type_invariant(self);
        }
        let ghost tail = n@.subrange(p as int, n.len() as int);
        let h = hash_from(n, p);
        let bucket = match self.index.get(&h) {
            Some(b) => b,
            None => {
                proof {
                    if self@.contains(tail) {
                        let i = choose|i: int| 0 <= i < self.entries.len() && #[trigger] self.entries[i]@ == tail;
                        assert(in_bucket(self.index@, name_hash(self.entries[i]@), i));
                    }
                }
                return false;
            },
        };
        let mut k: usize = 0;
        while k < bucket.len()
            invariant
                k <= bucket.len(),
                p <= n.len(),
                tail == n@.subrange(p as int, n.len() as int),
                h == name_hash(tail),
                self.index@.contains_key(h),
                *bucket == self.index@[h],
                index_covers(self.entries@, self.index@),
                forall|j: int| 0 <= j < k ==> self.entries[#[trigger] bucket@[j] as int]@ != tail,
            decreases bucket.len() - k,
        {
            let i = bucket[k];
            assert(i < self.entries.len());
            if suffix_equals(&self.entries[i], n, p) {
                assert(self.entries[i as int]@ == tail);
                return true;
            }
            k += 1;
        }
        proof {
            if self@.contains(tail) {
                let i = choose|i: int| 0 <= i < self.entries.len() && #[trigger] self.entries[i]@ == tail;
                assert(in_bucket(self.index@, name_hash(self.entries[i]@), i));
                let j = choose|j: int| 0 <= j < bucket@.len() && bucket@[j] == i as usize;
                assert(self.entries[bucket@[j] as int]@ != tail);
            }
        }
        false
    }
}

proof fn lemma_lower_dot(c: char)
    ensures
        (lower(c) == '.') == (c == '.'),
{
}

proof fn lemma_canonical_fixed(d: Seq<char>)
    requires
        canonical(d) == d,
        is_ascii_text(d),
    ensures
        lower_seq(d) == d,
        d.len() > 0 ==> d.last() != '.',
{
    assert(lower_seq(d).len() == d.len());
}

/// Letter case and one trailing root dot do not change the canonical form of
/// an ASCII name.
pub proof fn lemma_canonical_ignores_case_and_root_dot(s: Seq<char>, t: Seq<char>)
    requires
        is_ascii_text(s),
        is_ascii_text(t),
        lower_seq(s) == lower_seq(t),
        s.len() == 0 || s.last() != '.',
    ensures
        canonical(s) == canonical(t),
        canonical(s.push('.')) == canonical(t),
{
    let l = lower_seq(s);
    if s.len() > 0 {
        lemma_lower_dot(s.last());
    }
    assert(is_ascii_text(s.push('.'))) by {
        assert forall|i: int| 0 <= i < s.push('.').len() implies (#[trigger] s.push('.')[i] as u32) < 128 by {
            if i < s.len() {
                assert(s.push('.')[i] == s[i]);
            }
        }
    }
    assert(lower_seq(s.push('.')) =~= l.push('.'));
    assert(l.push('.').drop_last() =~= l);
}

/// Letter case and one trailing root dot do not change whether an ASCII name
/// is blocked: the name spelled with other letter cases, with or without the
/// dot, gets the same answer.
pub proof fn lemma_blocked_ignores_case_and_root_dot(set: Set<Seq<char>>, s: Seq<char>, t: Seq<char>)
    requires
        is_ascii_text(s),
        is_ascii_text(t),
        lower_seq(s) == lower_seq(t),
        s.len() == 0 || s.last() != '.',
    ensures
        blocked(set, s) == blocked(set, t),
        blocked(set, s.push('.')) == blocked(set, t),
{
    lemma_canonical_ignores_case_and_root_dot(s, t);
}

/// A listed ASCII name of two labels or more is blocked, and so is every ASCII
/// name formed by putting further labels in front of it.
pub proof fn lemma_listed_blocks_subdomains(set: Set<Seq<char>>, d: Seq<char>, prefix: Seq<char>)
    requires
        is_ascii_text(d),
        is_ascii_text(prefix),
        set.contains(d),
        canonical(d) == d,
        has_dot_from(d, 0),
        prefix.len() > 0,
    ensures
        blocked(set, d),
        blocked(set, prefix + seq!['.'] + d),
{
    lemma_canonical_fixed(d);
    assert(is_candidate(canonical(d), 0));
    assert(canonical(d).subrange(0, canonical(d).len() as int) =~= d);
    let s = prefix + seq!['.'] + d;
    assert(is_ascii_text(s)) by {
        assert forall|i: int| 0 <= i < s.len() implies (#[trigger] s[i] as u32) < 128 by {
            if i < prefix.len() {
                assert(s[i] == prefix[i]);
            } else if i > prefix.len() {
                assert(s[i] == d[i - prefix.len() - 1]);
            }
        }
    }
    let n = canonical(s);
    let lp = lower_seq(prefix);
    assert(lower_seq(s) =~= lp + seq!['.'] + lower_seq(d));
    assert(lower_seq(s).last() == d.last());
    assert(n =~= lp + seq!['.'] + d);
    let p = prefix.len() as int + 1;
    let j = choose|j: int| 0 <= j < d.len() && d[j] == '.';
    assert(n[p + j] == '.');
    assert(has_dot_from(n, p));
    assert(is_candidate(n, p));
    assert(n.subrange(p, n.len() as int) =~= d);
}

/// A listed name does not block its ASCII parent domain when nothing else is
/// listed.
pub proof fn lemma_listed_spares_parent(d: Seq<char>, label: Seq<char>, parent: Seq<char>)
    requires
        is_ascii_text(parent),
        d == label + seq!['.'] + parent,
    ensures
        !blocked(set![d], parent),
{
    let n = canonical(parent);
    assert(lower_seq(parent).len() == parent.len());
    assert forall|p: int| #[trigger] is_candidate(n, p) implies !set![d].contains(n.subrange(p, n.len() as int)) by {
        assert(n.subrange(p, n.len() as int).len() < d.len());
    }
}

/// A bare top-level label in the list blocks the query for that label and no
/// other name, in particular none of the names under it.
pub proof fn lemma_top_label_blocks_only_itself(tld: Seq<char>, name: Seq<char>)
    requires
        canonical(tld) == tld,
        !has_dot_from(tld, 0),
    ensures
        blocked(set![tld], tld),
        canonical(name) != tld ==> !blocked(set![tld], name),
{
    assert(is_candidate(canonical(tld), 0));
    assert(canonical(tld).subrange(0, tld.len() as int) =~= tld);
    let n = canonical(name);
    if n != tld {
        assert forall|p: int| #[trigger] is_candidate(n, p) implies !set![tld].contains(n.subrange(p, n.len() as int)) by {
            if p == 0 {
                assert(n.subrange(0, n.len() as int) =~= n);
            } else {
                let j = choose|j: int| p <= j < n.len() && n[j] == '.';
                assert(n.subrange(p, n.len() as int)[j - p] == '.');
            }
        }
    }
}

/// Canonicalizing an ASCII name twice gives what canonicalizing it once gives,
/// unless the name ends in two dots: only one trailing root dot is removed, so
/// `a..` becomes `a.` and then `a`.
pub proof fn lemma_canonical_idempotent(s: Seq<char>)
    requires
        is_ascii_text(s),
        !(s.len() >= 2 && s[s.len() - 1] == '.' && s[s.len() - 2] == '.'),
    ensures
        canonical(canonical(s)) == canonical(s),
{
    let l = lower_seq(s);
    let c = canonical(s);
    assert(c.len() <= l.len());
    assert forall|i: int| 0 <= i < c.len() implies (#[trigger] c[i] as u32) < 128 && lower(c[i]) == c[i] by {
        assert(c[i] == l[i]);
        assert(l[i] == lower(s[i]));
    }
    assert(is_ascii_text(c));
    assert(lower_seq(c) =~= c);
    if c.len() > 0 && c.last() == '.' {
        lemma_lower_dot(s[c.len() - 1]);
        if l.len() > 0 && l.last() == '.' {
            lemma_lower_dot(s.last());
            assert(s[s.len() - 2] == '.');
        } else {
            assert(c == l);
            lemma_lower_dot(s.last());
        }
    }
}

} // verus!
