//! Text primitives. A string is read as its sequence of characters.

use vstd::prelude::*;
use vstd::utf8::encode_utf8;

verus! {

/// The characters of a string.
pub type Text = Seq<char>;

/// The views of the items of a sequence, in order.
pub open spec fn views<T: View>(s: Seq<T>) -> Seq<T::V> {
    s.map_values(|x: T| x@)
}

// ── Trusted parts of std ──────────────────────────────────────────────────

/// What `str::to_lowercase` makes of a text.
pub uninterp spec fn lowered(s: Seq<char>) -> Seq<char>;

/// Calls `str::to_lowercase`. The result is a function of the characters
/// alone; on text that is ASCII throughout it lowers each letter and keeps
/// every other character.
#[verifier::external_body]
pub(crate) fn lowercase(s: &str) -> (r: String)
    ensures
        r@ == lowered(s@),
        all_ascii(s@) ==> r@ == ascii_lowered(s@),
{
    s.to_lowercase()
}

/// Calls `==` on two `str`: true exactly when they hold the same characters.
#[verifier::external_body]
pub(crate) fn same(a: &str, b: &str) -> (r: bool)
    ensures
        r == (a@ == b@),
{
    a == b
}

/// Calls `<` on two `str`: std documents the order as lexicographic by code
/// point.
#[verifier::external_body]
pub(crate) fn text_before(a: &str, b: &str) -> (r: bool)
    ensures
        r == text_less(a@, b@),
{
    a < b
}

/// `String::push` appends one character.
pub assume_specification[ String::push ](s: &mut String, c: char)
    ensures
        final(s)@ == old(s)@.push(c),
;

// ── Order ─────────────────────────────────────────────────────────────────

/// Lexicographic order by code point.
pub open spec fn text_less(a: Text, b: Text) -> bool
    decreases a.len(),
{
    if b.len() == 0 {
        false
    } else if a.len() == 0 {
        true
    } else if a[0] != b[0] {
        (a[0] as int) < (b[0] as int)
    } else {
        text_less(a.drop_first(), b.drop_first())
    }
}

/// No text comes before itself.
pub proof fn text_less_irreflexive(a: Text)
    ensures
        !text_less(a, a),
    decreases a.len(),
{
    if a.len() > 0 {
        text_less_irreflexive(a.drop_first());
    }
}

/// The order on texts is transitive.
pub proof fn text_less_transitive(a: Text, b: Text, c: Text)
    requires
        text_less(a, b),
        text_less(b, c),
    ensures
        text_less(a, c),
    decreases a.len(),
{
    if a.len() > 0 && b.len() > 0 && c.len() > 0 && a[0] == b[0] && b[0] == c[0] {
        text_less_transitive(a.drop_first(), b.drop_first(), c.drop_first());
    }
}

/// Of two different texts one comes before the other.
pub proof fn text_less_total(a: Text, b: Text)
    ensures
        a == b || text_less(a, b) || text_less(b, a),
    decreases a.len(),
{
    if a.len() > 0 && b.len() > 0 && a[0] == b[0] {
        text_less_total(a.drop_first(), b.drop_first());
        if a.drop_first() == b.drop_first() {
            assert(a =~= seq![a[0]] + a.drop_first());
            assert(b =~= seq![b[0]] + b.drop_first());
        }
    } else if a.len() == 0 && b.len() == 0 {
        assert(a =~= b);
    }
}

// ── Characters ────────────────────────────────────────────────────────────

pub open spec fn is_digit(c: char) -> bool {
    '0' <= c && c <= '9'
}

pub open spec fn is_upper(c: char) -> bool {
    'A' <= c && c <= 'Z'
}

pub open spec fn is_lower(c: char) -> bool {
    'a' <= c && c <= 'z'
}

pub open spec fn is_alnum(c: char) -> bool {
    is_digit(c) || is_upper(c) || is_lower(c)
}

pub open spec fn is_hex(c: char) -> bool {
    is_digit(c) || ('a' <= c && c <= 'f') || ('A' <= c && c <= 'F')
}

/// The characters of Unicode's `White_Space` property.
pub open spec fn is_space(c: char) -> bool {
    let n = c as int;
    0x9 <= n <= 0xd || n == 0x20 || n == 0x85 || n == 0xa0 || n == 0x1680
        || 0x2000 <= n <= 0x200a || n == 0x2028 || n == 0x2029 || n == 0x202f
        || n == 0x205f || n == 0x3000
}

pub open spec fn ascii_lower(c: char) -> char {
    if is_upper(c) {
        ((c as int) + 32) as char
    } else {
        c
    }
}

pub open spec fn all_ascii(s: Text) -> bool {
    forall|i: int| 0 <= i < s.len() ==> (#[trigger] s[i] as int) < 128
}

pub open spec fn ascii_lowered(s: Text) -> Text {
    s.map_values(|c: char| ascii_lower(c))
}

/// A character's code point.
pub fn code_point(c: char) -> (r: u32)
    ensures
        r == c as int,
{
    c as u32
}

pub fn digit(c: char) -> (r: bool)
    ensures
        r == is_digit(c),
{
    '0' <= c && c <= '9'
}

pub fn alnum(c: char) -> (r: bool)
    ensures
        r == is_alnum(c),
{
    digit(c) || ('A' <= c && c <= 'Z') || ('a' <= c && c <= 'z')
}

pub fn hex(c: char) -> (r: bool)
    ensures
        r == is_hex(c),
{
    digit(c) || ('A' <= c && c <= 'F') || ('a' <= c && c <= 'f')
}

pub fn space(c: char) -> (r: bool)
    ensures
        r == is_space(c),
{
    let n: u32 = c as u32;
    (0x9 <= n && n <= 0xd) || n == 0x20 || n == 0x85 || n == 0xa0 || n == 0x1680
        || (0x2000 <= n && n <= 0x200a) || n == 0x2028 || n == 0x2029 || n == 0x202f
        || n == 0x205f || n == 0x3000
}

fn lower_char(c: char) -> (r: char)
    ensures
        r == ascii_lower(c),
{
    if 'A' <= c && c <= 'Z' {
        let n: u8 = c as u8;
        (n + 32) as char
    } else {
        c
    }
}

// ── Building and taking apart ─────────────────────────────────────────────

pub fn chars_of(s: &str) -> (r: Vec<char>)
    ensures
        r@ == s@,
{
    let mut r: Vec<char> = Vec::new();
    for c in it: s.chars()
        invariant
            it.seq() == s@,
            r@ == s@.take(it.index() as int),
    {
        r.push(c);
        assert(r@ =~= s@.take(it.index() + 1));
    }
    assert(s@.take(s@.len() as int) =~= s@);
    r
}

/// The characters from `from` up to `to`.
pub fn piece(chars: &Vec<char>, from: usize, to: usize) -> (r: String)
    requires
        from <= to <= chars@.len(),
    ensures
        r@ == chars@.subrange(from as int, to as int),
{
    let mut r: String = String::new();
    let mut i: usize = from;
    while i < to
        invariant
            from <= i <= to <= chars@.len(),
            r@ == chars@.subrange(from as int, i as int),
        decreases to - i,
    {
        r.push(chars[i]);
        i = i + 1;
        assert(r@ =~= chars@.subrange(from as int, i as int));
    }
    r
}

pub fn text_of(chars: &Vec<char>) -> (r: String)
    ensures
        r@ == chars@,
{
    let r = piece(chars, 0, chars.len());
    assert(chars@.subrange(0, chars@.len() as int) =~= chars@);
    r
}

// ── Joining ───────────────────────────────────────────────────────────────

pub fn cat2(a: &str, b: &str) -> (r: String)
    ensures
        r@ == a@ + b@,
{
    let mut r: String = a.to_owned();
    r.append(b);
    r
}

pub fn cat3(a: &str, b: &str, c: &str) -> (r: String)
    ensures
        r@ == a@ + b@ + c@,
{
    let mut r: String = cat2(a, b);
    r.append(c);
    r
}

pub fn cat4(a: &str, b: &str, c: &str, d: &str) -> (r: String)
    ensures
        r@ == a@ + b@ + c@ + d@,
{
    let mut r: String = cat3(a, b, c);
    r.append(d);
    r
}

pub fn cat5(a: &str, b: &str, c: &str, d: &str, e: &str) -> (r: String)
    ensures
        r@ == a@ + b@ + c@ + d@ + e@,
{
    let mut r: String = cat4(a, b, c, d);
    r.append(e);
    r
}

pub fn cat6(a: &str, b: &str, c: &str, d: &str, e: &str, f: &str) -> (r: String)
    ensures
        r@ == a@ + b@ + c@ + d@ + e@ + f@,
{
    let mut r: String = cat5(a, b, c, d, e);
    r.append(f);
    r
}

pub fn cat7(a: &str, b: &str, c: &str, d: &str, e: &str, f: &str, g: &str) -> (r: String)
    ensures
        r@ == a@ + b@ + c@ + d@ + e@ + f@ + g@,
{
    let mut r: String = cat6(a, b, c, d, e, f);
    r.append(g);
    r
}

/// The parts one after another.
pub open spec fn concatenated(parts: Seq<Text>) -> Text
    decreases parts.len(),
{
    if parts.len() == 0 {
        Seq::empty()
    } else {
        concatenated(parts.drop_last()) + parts.last()
    }
}

/// The parts with `sep` between each two.
pub open spec fn joined(parts: Seq<Text>, sep: Text) -> Text
    decreases parts.len(),
{
    if parts.len() == 0 {
        Seq::empty()
    } else if parts.len() == 1 {
        parts[0]
    } else {
        joined(parts.drop_last(), sep) + sep + parts.last()
    }
}

pub fn concat_all(parts: &Vec<String>) -> (r: String)
    ensures
        r@ == concatenated(views(parts@)),
{
    let ghost all = views(parts@);
    let mut r: String = String::new();
    let mut i: usize = 0;
    assert(all.take(0) =~= Seq::empty());
    assert(r@ =~= concatenated(all.take(0)));
    while i < parts.len()
        invariant
            i <= parts@.len(),
            all == views(parts@),
            r@ == concatenated(all.take(i as int)),
        decreases parts@.len() - i,
    {
        assert(all.take(i + 1).drop_last() =~= all.take(i as int));
        r.append(parts[i].as_str());
        i = i + 1;
    }
    assert(all.take(i as int) =~= all);
    r
}

pub fn join(parts: &Vec<String>, sep: &str) -> (r: String)
    ensures
        r@ == joined(views(parts@), sep@),
{
    let ghost all = views(parts@);
    if parts.len() == 0 {
        let r: String = String::new();
        assert(r@ =~= Seq::empty());
        return r;
    }
    let mut r: String = parts[0].clone();
    let mut i: usize = 1;
    assert(all.take(1)[0] == all[0]);
    while i < parts.len()
        invariant
            1 <= i <= parts@.len(),
            all == views(parts@),
            r@ == joined(all.take(i as int), sep@),
        decreases parts@.len() - i,
    {
        assert(all.take(i + 1).drop_last() =~= all.take(i as int));
        r.append(sep);
        r.append(parts[i].as_str());
        i = i + 1;
    }
    assert(all.take(i as int) =~= all);
    r
}

/// The text of an optional string.
pub open spec fn opt_text(o: Option<String>) -> Option<Text> {
    match o {
        Some(s) => Some(s@),
        None => None,
    }
}

// ── Splitting ─────────────────────────────────────────────────────────────

/// The pieces of a text between the separators; at least one.
pub open spec fn pieces(s: Text, sep: char) -> Seq<Text>
    decreases s.len(),
{
    if s.len() == 0 {
        seq![Seq::empty()]
    } else {
        let p = pieces(s.drop_last(), sep);
        if s.last() == sep {
            p.push(Seq::empty())
        } else {
            p.update(p.len() - 1, p.last().push(s.last()))
        }
    }
}

/// There is always a piece.
pub proof fn pieces_some(s: Text, sep: char)
    ensures
        pieces(s, sep).len() >= 1,
    decreases s.len(),
{
    if s.len() > 0 {
        pieces_some(s.drop_last(), sep);
    }
}

/// No piece holds the separator, and joined by it they give the text back.
pub proof fn pieces_rejoin(s: Text, sep: char)
    ensures
        forall|i: int| 0 <= i < pieces(s, sep).len() ==> !(#[trigger] pieces(s, sep)[i]).contains(sep),
        joined(pieces(s, sep), seq![sep]) == s,
    decreases s.len(),
{
    pieces_some(s, sep);
    let q = pieces(s, sep);
    if s.len() == 0 {
        assert(joined(q, seq![sep]) =~= s);
    } else {
        let t = s.drop_last();
        pieces_rejoin(t, sep);
        pieces_some(t, sep);
        let p = pieces(t, sep);
        assert(s =~= t.push(s.last()));
        if s.last() == sep {
            assert(q.drop_last() =~= p);
            assert(joined(q, seq![sep]) =~= t.push(sep));
            assert(!Seq::<char>::empty().contains(sep));
        } else {
            assert(q.drop_last() =~= p.drop_last());
            assert forall|i: int| 0 <= i < q.len() implies !(#[trigger] q[i]).contains(sep) by {
                if i < q.len() - 1 {
                    assert(q[i] == p[i]);
                } else {
                    assert(!p.last().contains(sep));
                    assert forall|k: int| 0 <= k < q[i].len() implies q[i][k] != sep by {
                        if k < p.last().len() {
                            assert(p.last()[k] != sep);
                        }
                    }
                }
            }
            assert(joined(q, seq![sep]) =~= joined(p, seq![sep]).push(s.last()));
        }
    }
}

pub fn split(s: &str, sep: char) -> (r: Vec<String>)
    ensures
        views(r@) == pieces(s@, sep),
        r@.len() >= 1,
{
    let mut done: Vec<String> = Vec::new();
    let mut current: String = String::new();
    assert(s@.take(0) =~= Seq::empty());
    assert(views(done@).push(current@) =~= pieces(s@.take(0), sep));
    for c in it: s.chars()
        invariant
            it.seq() == s@,
            views(done@).push(current@) == pieces(s@.take(it.index() as int), sep),
    {
        let ghost i = it.index();
        let ghost before = views(done@).push(current@);
        assert(s@.take(i + 1).drop_last() =~= s@.take(i as int));
        if c == sep {
            done.push(current);
            current = String::new();
            assert(views(done@) =~= before);
        } else {
            current.push(c);
            assert(views(done@).push(current@) =~= before.update(
                before.len() - 1,
                before.last().push(c),
            ));
        }
    }
    assert(s@.take(s@.len() as int) =~= s@);
    let ghost before = views(done@).push(current@);
    done.push(current);
    assert(views(done@) =~= before);
    done
}

/// What follows the last dot, or the whole text when it has none.
pub fn leaf(path: &str) -> (r: String)
    ensures
        r@ == pieces(path@, '.').last(),
{
    let parts = split(path, '.');
    let r = parts[parts.len() - 1].clone();
    assert(views(parts@).last() == parts@.last()@);
    r
}

// ── Counting ──────────────────────────────────────────────────────────────

/// How many texts have a property.
pub open spec fn tally(s: Seq<Text>, p: spec_fn(Text) -> bool) -> nat
    decreases s.len(),
{
    if s.len() == 0 {
        0
    } else {
        tally(s.drop_last(), p) + if p(s.last()) {
            1nat
        } else {
            0
        }
    }
}

/// Counting is counting what a filter keeps.
pub proof fn tally_is_filter(s: Seq<Text>, p: spec_fn(Text) -> bool)
    ensures
        tally(s, p) == s.filter(p).len(),
    decreases s.len(),
{
    reveal(Seq::filter);
    if s.len() > 0 {
        tally_is_filter(s.drop_last(), p);
    }
}

/// No more have it than there are.
pub proof fn tally_bound(s: Seq<Text>, p: spec_fn(Text) -> bool)
    ensures
        tally(s, p) <= s.len(),
    decreases s.len(),
{
    if s.len() > 0 {
        tally_bound(s.drop_last(), p);
    }
}

/// The bytes a character takes in UTF-8.
pub open spec fn utf8_width(c: char) -> nat {
    if (c as int) < 0x80 {
        1
    } else if (c as int) < 0x800 {
        2
    } else if (c as int) < 0x10000 {
        3
    } else {
        4
    }
}

/// The length of a text in UTF-8 bytes.
pub open spec fn byte_len(s: Text) -> nat
    decreases s.len(),
{
    if s.len() == 0 {
        0
    } else {
        byte_len(s.drop_last()) + utf8_width(s.last())
    }
}

pub fn bytes_in(s: &str) -> (r: u128)
    ensures
        r == byte_len(s@),
{
    let chars = chars_of(s);
    let mut r: u128 = 0;
    let mut i: usize = 0;
    assert(s@.take(0) =~= Seq::empty());
    while i < chars.len()
        invariant
            i <= chars@.len(),
            chars@ == s@,
            r == byte_len(s@.take(i as int)),
            r <= 4 * i,
        decreases chars@.len() - i,
    {
        assert(s@.take(i + 1).drop_last() =~= s@.take(i as int));
        let n: u32 = code_point(chars[i]);
        let width: u128 = if n < 0x80 {
            1
        } else if n < 0x800 {
            2
        } else if n < 0x10000 {
            3
        } else {
            4
        };
        r = r + width;
        i = i + 1;
    }
    assert(s@.take(i as int) =~= s@);
    r
}

// ── Trimming ──────────────────────────────────────────────────────────────

pub open spec fn trim_start_of(s: Text) -> Text
    decreases s.len(),
{
    if s.len() > 0 && is_space(s[0]) {
        trim_start_of(s.drop_first())
    } else {
        s
    }
}

pub open spec fn trim_end_of(s: Text) -> Text
    decreases s.len(),
{
    if s.len() > 0 && is_space(s.last()) {
        trim_end_of(s.drop_last())
    } else {
        s
    }
}

/// A text without the white space around it.
pub open spec fn trimmed(s: Text) -> Text {
    trim_end_of(trim_start_of(s))
}

fn trim_start_at(chars: &Vec<char>) -> (i: usize)
    ensures
        i <= chars@.len(),
        trim_start_of(chars@) == chars@.skip(i as int),
{
    let mut i: usize = 0;
    assert(chars@.skip(0) =~= chars@);
    while i < chars.len() && space(chars[i])
        invariant
            i <= chars@.len(),
            trim_start_of(chars@) == trim_start_of(chars@.skip(i as int)),
        decreases chars@.len() - i,
    {
        assert(chars@.skip(i as int).drop_first() =~= chars@.skip(i + 1));
        i = i + 1;
    }
    i
}

pub fn trim_start(s: &str) -> (r: String)
    ensures
        r@ == trim_start_of(s@),
{
    let chars = chars_of(s);
    let i: usize = trim_start_at(&chars);
    let r = piece(&chars, i, chars.len());
    assert(chars@.skip(i as int) =~= chars@.subrange(i as int, chars@.len() as int));
    r
}

pub fn trim(s: &str) -> (r: String)
    ensures
        r@ == trimmed(s@),
{
    let chars = chars_of(s);
    let i: usize = trim_start_at(&chars);
    let mut j: usize = chars.len();
    let ghost t = chars@.skip(i as int);
    assert(t =~= chars@.subrange(i as int, j as int));
    while j > i && space(chars[j - 1])
        invariant
            i <= j <= chars@.len(),
            trim_end_of(t) == trim_end_of(chars@.subrange(i as int, j as int)),
        decreases j,
    {
        assert(chars@.subrange(i as int, j as int).drop_last() =~= chars@.subrange(i as int, j - 1));
        j = j - 1;
    }
    piece(&chars, i, j)
}

// ── Searching ─────────────────────────────────────────────────────────────

/// Whether `p` stands in `s` at `i`.
pub open spec fn stands_at(s: Text, p: Text, i: int) -> bool {
    0 <= i && i + p.len() <= s.len() && s.subrange(i, i + p.len()) == p
}

/// Whether `p` stands anywhere in `s`.
pub open spec fn holds(s: Text, p: Text) -> bool {
    exists|i: int| stands_at(s, p, i)
}

pub open spec fn has_prefix(s: Text, p: Text) -> bool {
    stands_at(s, p, 0)
}

pub open spec fn has_suffix(s: Text, p: Text) -> bool {
    stands_at(s, p, s.len() - p.len())
}

/// Each part stands in the whole.
pub proof fn part_is_held(parts: Seq<Text>, sep: Text, i: int)
    requires
        0 <= i < parts.len(),
    ensures
        holds(joined(parts, sep), parts[i]),
    decreases parts.len(),
{
    let whole = joined(parts, sep);
    if parts.len() == 1 {
        assert(whole.subrange(0, parts[i].len() as int) =~= parts[i]);
        assert(stands_at(whole, parts[i], 0));
    } else {
        let before = joined(parts.drop_last(), sep);
        if i == parts.len() - 1 {
            let at: int = (before.len() + sep.len()) as int;
            assert(whole.subrange(at, at + parts[i].len()) =~= parts[i]);
            assert(stands_at(whole, parts[i], at));
        } else {
            part_is_held(parts.drop_last(), sep, i);
            assert(parts.drop_last()[i] == parts[i]);
            let at = choose|at: int| stands_at(before, parts[i], at);
            assert(whole.subrange(at, at + parts[i].len()) =~= before.subrange(
                at,
                at + parts[i].len(),
            ));
            assert(stands_at(whole, parts[i], at));
        }
    }
}

fn at(s: &Vec<char>, p: &Vec<char>, i: usize) -> (r: bool)
    requires
        i <= s@.len(),
    ensures
        r == stands_at(s@, p@, i as int),
{
    let n: usize = s.len();
    if p.len() > n - i {
        return false;
    }
    let mut k: usize = 0;
    while k < p.len()
        invariant
            k <= p@.len(),
            n == s@.len(),
            i + p@.len() <= n,
            forall|j: int| 0 <= j < k ==> s@[i + j] == #[trigger] p@[j],
        decreases p@.len() - k,
    {
        if s[i + k] != p[k] {
            assert(s@.subrange(i as int, i + p@.len())[k as int] != p@[k as int]);
            return false;
        }
        k = k + 1;
    }
    assert(s@.subrange(i as int, i + p@.len()) =~= p@);
    true
}

pub fn contains(s: &str, p: &str) -> (r: bool)
    ensures
        r == holds(s@, p@),
{
    let cs = chars_of(s);
    let cp = chars_of(p);
    let n: usize = cs.len();
    let mut i: usize = 0;
    while i <= n
        invariant
            i <= n == cs@.len(),
            cs@ == s@,
            cp@ == p@,
            forall|j: int| 0 <= j < i ==> !#[trigger] stands_at(cs@, cp@, j),
        decreases n - i,
    {
        if at(&cs, &cp, i) {
            return true;
        }
        if i == n {
            assert forall|j: int| !#[trigger] stands_at(cs@, cp@, j) by {}
            return false;
        }
        i = i + 1;
    }
    false
}

pub fn starts_with(s: &str, p: &str) -> (r: bool)
    ensures
        r == has_prefix(s@, p@),
{
    at(&chars_of(s), &chars_of(p), 0)
}

pub fn ends_with(s: &str, p: &str) -> (r: bool)
    ensures
        r == has_suffix(s@, p@),
{
    let cs = chars_of(s);
    let cp = chars_of(p);
    if cp.len() > cs.len() {
        false
    } else {
        at(&cs, &cp, cs.len() - cp.len())
    }
}

/// Equal but for the case of ASCII letters.
pub open spec fn same_letters(a: Text, b: Text) -> bool {
    ascii_lowered(a) == ascii_lowered(b)
}

pub fn same_ignoring_case(a: &str, b: &str) -> (r: bool)
    ensures
        r == same_letters(a@, b@),
{
    let ca = chars_of(a);
    let cb = chars_of(b);
    if ca.len() != cb.len() {
        assert(ascii_lowered(a@).len() != ascii_lowered(b@).len());
        return false;
    }
    let mut i: usize = 0;
    while i < ca.len()
        invariant
            i <= ca@.len() == cb@.len(),
            ca@ == a@,
            cb@ == b@,
            forall|k: int| 0 <= k < i ==> ascii_lower(#[trigger] a@[k]) == ascii_lower(b@[k]),
        decreases ca@.len() - i,
    {
        if lower_char(ca[i]) != lower_char(cb[i]) {
            assert(ascii_lowered(a@)[i as int] != ascii_lowered(b@)[i as int]);
            return false;
        }
        i = i + 1;
    }
    assert(ascii_lowered(a@) =~= ascii_lowered(b@));
    true
}

/// Whether a text is among the items.
pub fn listed(items: &Vec<String>, t: &str) -> (r: bool)
    ensures
        r == views(items@).contains(t@),
{
    let mut i: usize = 0;
    while i < items.len()
        invariant
            i <= items@.len(),
            forall|k: int| 0 <= k < i ==> #[trigger] views(items@)[k] != t@,
        decreases items@.len() - i,
    {
        if same(items[i].as_str(), t) {
            assert(views(items@)[i as int] == t@);
            return true;
        }
        i = i + 1;
    }
    false
}

// ── Numbers ───────────────────────────────────────────────────────────────

pub open spec fn digit_char(d: int) -> char {
    (48 + d) as char
}

/// A natural number in decimal.
pub open spec fn digits(n: nat) -> Text
    decreases n,
{
    if n < 10 {
        seq![digit_char(n as int)]
    } else {
        digits(n / 10).push(digit_char((n % 10) as int))
    }
}

/// A whole number in decimal.
pub open spec fn signed_digits(n: int) -> Text {
    if n < 0 {
        seq!['-'] + digits((-n) as nat)
    } else {
        digits(n as nat)
    }
}

pub fn decimal(n: u128) -> (r: String)
    ensures
        r@ == digits(n as nat),
    decreases n,
{
    let mut r: String = if n < 10 {
        String::new()
    } else {
        decimal(n / 10)
    };
    let d: u8 = (n % 10) as u8;
    let c: char = (48 + d) as char;
    r.push(c);
    assert(n < 10 ==> r@ =~= digits(n as nat));
    r
}

pub fn signed_decimal(n: i128) -> (r: String)
    requires
        n > i128::MIN,
    ensures
        r@ == signed_digits(n as int),
{
    if n < 0 {
        let magnitude: u128 = (-n) as u128;
        let r = cat2("-", decimal(magnitude).as_str());
        proof {
            reveal_strlit("-");
        }
        assert("-"@ =~= seq!['-']);
        r
    } else {
        decimal(n as u128)
    }
}

/// The number that decimal digits spell.
pub open spec fn digits_value(s: Text) -> int
    decreases s.len(),
{
    if s.len() == 0 {
        0
    } else {
        digits_value(s.drop_last()) * 10 + (s.last() as int - 48)
    }
}

/// Digits only, and at least one.
pub open spec fn all_digits(s: Text) -> bool {
    s.len() > 0 && forall|i: int| 0 <= i < s.len() ==> is_digit(#[trigger] s[i])
}

/// The whole number a text spells: digits, with or without a sign.
pub open spec fn whole_number(s: Text) -> Option<int> {
    if s.len() > 0 && (s[0] == '-' || s[0] == '+') {
        let d = s.drop_first();
        if !all_digits(d) {
            None
        } else if s[0] == '-' {
            Some(-digits_value(d))
        } else {
            Some(digits_value(d))
        }
    } else if all_digits(s) {
        Some(digits_value(s))
    } else {
        None
    }
}

/// What reading a text as an `i64` gives.
pub open spec fn i64_of(s: Text) -> Option<i64> {
    match whole_number(s) {
        Some(n) => if i64::MIN <= n <= i64::MAX {
            Some(n as i64)
        } else {
            None
        },
        None => None,
    }
}

/// Printed and read again, a number is itself.
pub proof fn digits_read_back(n: nat)
    ensures
        all_digits(digits(n)),
        digits_value(digits(n)) == n,
    decreases n,
{
    let d = digits(n);
    if n < 10 {
        assert(d.drop_last() =~= Seq::empty());
        assert(digits_value(d.drop_last()) == 0);
    } else {
        digits_read_back(n / 10);
        assert(d.drop_last() =~= digits(n / 10));
        assert forall|i: int| 0 <= i < d.len() implies is_digit(#[trigger] d[i]) by {
            if i < d.len() - 1 {
                assert(d[i] == digits(n / 10)[i]);
            }
        }
    }
}

proof fn digits_value_grows(s: Text, k: int)
    requires
        all_digits(s),
        0 <= k <= s.len(),
    ensures
        0 <= digits_value(s.take(k)) <= digits_value(s),
    decreases s.len() - k,
{
    if k < s.len() {
        digits_value_grows(s, k + 1);
        assert(s.take(k + 1).drop_last() =~= s.take(k));
        assert(is_digit(s[k]));
        digits_value_nonneg(s.take(k));
    } else {
        assert(s.take(k) =~= s);
        digits_value_nonneg(s);
    }
}

proof fn digits_value_nonneg(s: Text)
    requires
        forall|i: int| 0 <= i < s.len() ==> is_digit(#[trigger] s[i]),
    ensures
        digits_value(s) >= 0,
    decreases s.len(),
{
    if s.len() > 0 {
        digits_value_nonneg(s.drop_last());
        assert(is_digit(s.last()));
    }
}

/// The value of the digits from `from` on, when they are digits and the
/// value stays within `limit`.
fn read_digits(chars: &Vec<char>, from: usize, limit: u64) -> (r: Option<u64>)
    requires
        from <= chars@.len(),
    ensures
        match r {
            Some(n) => all_digits(chars@.skip(from as int)) && n == digits_value(
                chars@.skip(from as int),
            ) && n <= limit,
            None => !all_digits(chars@.skip(from as int)) || digits_value(chars@.skip(from as int))
                > limit,
        },
{
    let ghost s = chars@.skip(from as int);
    if from == chars.len() {
        return None;
    }
    let mut ok: bool = true;
    let mut i: usize = from;
    while i < chars.len()
        invariant
            from <= i <= chars@.len(),
            s == chars@.skip(from as int),
            ok == (forall|k: int| from <= k < i ==> is_digit(#[trigger] chars@[k])),
        decreases chars@.len() - i,
    {
        if !digit(chars[i]) {
            ok = false;
        }
        i = i + 1;
    }
    assert(ok == all_digits(s)) by {
        assert forall|k: int| from <= k < chars@.len() implies chars@[k] == #[trigger] s[k - from] by {}
        if all_digits(s) {
            assert forall|k: int| from <= k < chars@.len() implies is_digit(#[trigger] chars@[k]) by {
                assert(is_digit(s[k - from]));
            }
        }
    }
    if !ok {
        return None;
    }
    let mut value: u64 = 0;
    let mut j: usize = from;
    assert(s.take(0) =~= Seq::empty());
    while j < chars.len()
        invariant
            from <= j <= chars@.len(),
            s == chars@.skip(from as int),
            all_digits(s),
            value == digits_value(s.take(j - from)),
            value <= limit,
        decreases chars@.len() - j,
    {
        let c: char = chars[j];
        assert(c == s[j - from]);
        assert(is_digit(s[j - from]));
        let d: u64 = c as u64 - 48;
        let next: u128 = (value as u128) * 10 + (d as u128);
        assert(s.take(j - from + 1).drop_last() =~= s.take(j - from));
        assert(next == digits_value(s.take(j - from + 1)));
        if next > limit as u128 {
            proof {
                digits_value_grows(s, j - from + 1);
            }
            return None;
        }
        value = next as u64;
        j = j + 1;
    }
    assert(s.take(s.len() as int) =~= s);
    Some(value)
}

/// Reads a text as an `i64`.
pub fn parse_i64(s: &str) -> (r: Option<i64>)
    ensures
        r == i64_of(s@),
{
    let chars = chars_of(s);
    if chars.len() > 0 && chars[0] == '-' {
        assert(chars@.skip(1) =~= s@.drop_first());
        match read_digits(&chars, 1, 0x8000_0000_0000_0000) {
            Some(n) => {
                let wide: i128 = -(n as i128);
                Some(wide as i64)
            },
            None => None,
        }
    } else if chars.len() > 0 && chars[0] == '+' {
        assert(chars@.skip(1) =~= s@.drop_first());
        proof {
            if all_digits(chars@.skip(1)) {
                digits_value_nonneg(chars@.skip(1));
            }
        }
        match read_digits(&chars, 1, 0x7fff_ffff_ffff_ffff) {
            Some(n) => Some(n as i64),
            None => None,
        }
    } else {
        assert(chars@.skip(0) =~= s@);
        proof {
            if all_digits(s@) {
                digits_value_nonneg(s@);
            }
        }
        match read_digits(&chars, 0, 0x7fff_ffff_ffff_ffff) {
            Some(n) => Some(n as i64),
            None => None,
        }
    }
}

/// What reading a text as a `u32` gives: digits, with or without a plus.
pub open spec fn u32_of(s: Text) -> Option<u32> {
    match whole_number(s) {
        Some(n) => if s[0] != '-' && n <= u32::MAX {
            Some(n as u32)
        } else {
            None
        },
        None => None,
    }
}

/// Reads a text as a `u32`.
pub fn parse_u32(s: &str) -> (r: Option<u32>)
    ensures
        r == u32_of(s@),
{
    let chars = chars_of(s);
    let from: usize = if chars.len() > 0 && chars[0] == '+' {
        1
    } else {
        0
    };
    assert(chars@.skip(0) =~= s@);
    assert(from == 1 ==> chars@.skip(1) =~= s@.drop_first());
    proof {
        if all_digits(chars@.skip(from as int)) {
            digits_value_nonneg(chars@.skip(from as int));
        }
        if s@.len() > 0 && s@[0] == '-' && all_digits(s@) {
            assert(is_digit(s@[0]));
        }
    }
    match read_digits(&chars, from, 0xffff_ffff) {
        Some(n) => Some(n as u32),
        None => None,
    }
}

// ── What holds of texts ───────────────────────────────────────────────────

proof fn start_is_trimmed(s: Text) -> (a: int)
    ensures
        0 <= a <= s.len(),
        trim_start_of(s) == s.subrange(a, s.len() as int),
        forall|i: int| 0 <= i < a ==> is_space(#[trigger] s[i]),
        a < s.len() ==> !is_space(s[a]),
    decreases s.len(),
{
    if s.len() > 0 && is_space(s[0]) {
        let rest = s.drop_first();
        let b = start_is_trimmed(rest);
        assert(rest.subrange(b, rest.len() as int) =~= s.subrange(b + 1, s.len() as int));
        assert forall|i: int| 0 <= i < b + 1 implies is_space(#[trigger] s[i]) by {
            if i > 0 {
                assert(rest[i - 1] == s[i]);
            }
        }
        assert(b < rest.len() ==> rest[b] == s[b + 1]);
        b + 1
    } else {
        assert(s.subrange(0, s.len() as int) =~= s);
        0
    }
}

proof fn end_is_trimmed(s: Text) -> (b: int)
    ensures
        0 <= b <= s.len(),
        trim_end_of(s) == s.subrange(0, b),
        forall|i: int| b <= i < s.len() ==> is_space(#[trigger] s[i]),
        b > 0 ==> !is_space(s[b - 1]),
    decreases s.len(),
{
    if s.len() > 0 && is_space(s.last()) {
        let short = s.drop_last();
        let b = end_is_trimmed(short);
        assert(short.subrange(0, b) =~= s.subrange(0, b));
        assert forall|i: int| b <= i < s.len() implies is_space(#[trigger] s[i]) by {
            if i < short.len() {
                assert(short[i] == s[i]);
            }
        }
        assert(b > 0 ==> short[b - 1] == s[b - 1]);
        b
    } else {
        assert(s.subrange(0, s.len() as int) =~= s);
        s.len() as int
    }
}

/// Trimming takes the white space at both ends and nothing else. Gives where
/// what is left begins and ends.
pub proof fn trimming_takes_only_white_space(s: Text) -> (at: (int, int))
    ensures
        0 <= at.0 <= at.1 <= s.len(),
        trimmed(s) == s.subrange(at.0, at.1),
        forall|i: int| 0 <= i < at.0 ==> is_space(#[trigger] s[i]),
        forall|i: int| at.1 <= i < s.len() ==> is_space(#[trigger] s[i]),
        at.0 < at.1 ==> !is_space(s[at.0]) && !is_space(s[at.1 - 1]),
{
    let a = start_is_trimmed(s);
    let t = s.subrange(a, s.len() as int);
    let b = end_is_trimmed(t);
    assert(t.subrange(0, b) =~= s.subrange(a, a + b));
    assert forall|i: int| a + b <= i < s.len() implies is_space(#[trigger] s[i]) by {
        assert(t[i - a] == s[i]);
    }
    if b > 0 {
        assert(t[0] == s[a] && t[b - 1] == s[a + b - 1]);
    }
    (a, a + b)
}

/// Texts stand by the first character in which they differ, and a text
/// before every longer one that begins with it.
pub proof fn the_first_difference_orders(a: Text, b: Text, i: int)
    requires
        0 <= i <= a.len(),
        i <= b.len(),
        forall|j: int| 0 <= j < i ==> #[trigger] a[j] == b[j],
    ensures
        i < a.len() && i < b.len() && (a[i] as int) < (b[i] as int) ==> text_less(a, b),
        i < a.len() && i < b.len() && (a[i] as int) > (b[i] as int) ==> !text_less(a, b),
        i == a.len() ==> (text_less(a, b) <==> a.len() < b.len()),
        i == b.len() ==> !text_less(a, b),
    decreases i,
{
    if i > 0 {
        let p = a.drop_first();
        let q = b.drop_first();
        assert(a[0] == b[0]);
        assert forall|j: int| 0 <= j < i - 1 implies #[trigger] p[j] == q[j] by {
            assert(p[j] == a[j + 1] && q[j] == b[j + 1]);
        }
        the_first_difference_orders(p, q, i - 1);
    }
}

/// What a number is written as reads back as that number, with its sign.
pub proof fn written_numbers_read_back(n: nat)
    ensures
        n <= i64::MAX ==> i64_of(digits(n)) == Some(n as i64),
        n <= u32::MAX ==> u32_of(digits(n)) == Some(n as u32),
        0 < n <= i64::MAX ==> i64_of(signed_digits(-n)) == Some((-n) as i64),
        n > i64::MAX ==> i64_of(digits(n)) is None,
        n > u32::MAX ==> u32_of(digits(n)) is None,
{
    digits_read_back(n);
    let d = digits(n);
    assert(d.len() > 0 && is_digit(d[0]));
    let m = seq!['-'] + d;
    assert(m.drop_first() =~= d);
    assert(m[0] == '-');
}

/// A text takes a byte for each ASCII character, and two to four for any
/// other; the bytes of two texts add up.
pub proof fn bytes_are_counted_by_character(s: Text, t: Text)
    ensures
        s.len() <= byte_len(s) <= 4 * s.len(),
        all_ascii(s) ==> byte_len(s) == s.len(),
        byte_len(s + t) == byte_len(s) + byte_len(t),
    decreases s.len() + t.len(),
{
    if t.len() > 0 {
        let short = t.drop_last();
        bytes_are_counted_by_character(s, short);
        assert((s + t).drop_last() =~= s + short);
        assert((s + t).last() == t.last());
    } else {
        assert(s + t =~= s);
        if s.len() > 0 {
            let short = s.drop_last();
            bytes_are_counted_by_character(short, t);
            if all_ascii(s) {
                assert forall|i: int| 0 <= i < short.len() implies (#[trigger] short[i] as int)
                    < 0x80 by {
                    assert(short[i] == s[i]);
                }
                assert(all_ascii(short));
                assert((s[s.len() - 1] as int) < 0x80);
            }
        }
    }
}

/// A character past the ASCII ones takes two bytes up to the first limit,
/// three up to the second, and four beyond.
pub proof fn wide_characters_take_more_bytes(c: char)
    ensures
        (c as int) < 0x80 ==> byte_len(seq![c]) == 1,
        0x80 <= (c as int) < 0x800 ==> byte_len(seq![c]) == 2,
        0x800 <= (c as int) < 0x10000 ==> byte_len(seq![c]) == 3,
        0x10000 <= (c as int) ==> byte_len(seq![c]) == 4,
{
    assert(seq![c].drop_last() =~= Seq::empty());
    assert(byte_len(Seq::empty()) == 0);
}

/// Two texts are alike but for case when they are as long, and each two
/// characters are the same or the capital and the small form of one letter.
pub proof fn only_the_case_of_letters_may_differ(a: Text, b: Text)
    ensures
        same_letters(a, b) <==> a.len() == b.len() && forall|i: int|
            0 <= i < a.len() ==> {
                ||| #[trigger] a[i] == b[i]
                ||| 'A' <= a[i] <= 'Z' && b[i] as int == a[i] as int + 32
                ||| 'A' <= b[i] <= 'Z' && a[i] as int == b[i] as int + 32
            },
{
    let x = ascii_lowered(a);
    let y = ascii_lowered(b);
    assert(x.len() == a.len() && y.len() == b.len());
    if same_letters(a, b) {
        assert forall|i: int| 0 <= i < a.len() implies {
            ||| #[trigger] a[i] == b[i]
            ||| 'A' <= a[i] <= 'Z' && b[i] as int == a[i] as int + 32
            ||| 'A' <= b[i] <= 'Z' && a[i] as int == b[i] as int + 32
        } by {
            assert(x[i] == y[i]);
            assert(x[i] == ascii_lower(a[i]) && y[i] == ascii_lower(b[i]));
        }
    }
    if a.len() == b.len() && forall|i: int|
        0 <= i < a.len() ==> {
            ||| #[trigger] a[i] == b[i]
            ||| 'A' <= a[i] <= 'Z' && b[i] as int == a[i] as int + 32
            ||| 'A' <= b[i] <= 'Z' && a[i] as int == b[i] as int + 32
        } {
        assert forall|i: int| 0 <= i < x.len() implies #[trigger] x[i] == y[i] by {
            assert(a[i] == a[i]);
            assert(x[i] == ascii_lower(a[i]) && y[i] == ascii_lower(b[i]));
        }
        assert(x =~= y);
    }
}

/// A number is written without a zero in front.
pub proof fn numbers_begin_with_no_zero(n: nat)
    ensures
        n > 0 ==> digits(n)[0] != '0',
        n == 0 ==> digits(n) == seq!['0'],
    decreases n,
{
    if n >= 10 {
        numbers_begin_with_no_zero(n / 10);
        digits_read_back(n / 10);
    }
}

} // verus!
