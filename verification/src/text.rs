//! Text helpers: trimming, word splitting, joining, case folding.
use vstd::prelude::*;

verus! {

/// Whether `c` carries the Unicode `White_Space` property.
pub open spec fn is_space(c: char) -> bool {
    let n = c as u32;
    ||| 0x09 <= n <= 0x0d
    ||| n == 0x20
    ||| n == 0x85
    ||| n == 0xa0
    ||| n == 0x1680
    ||| 0x2000 <= n <= 0x200a
    ||| n == 0x2028
    ||| n == 0x2029
    ||| n == 0x202f
    ||| n == 0x205f
    ||| n == 0x3000
}

/// Tests a character for white space.
pub fn char_is_space(c: char) -> (b: bool)
    ensures
        b == is_space(c),
{
    let n: u32 = c as u32;
    (0x09 <= n && n <= 0x0d) || n == 0x20 || n == 0x85 || n == 0xa0 || n == 0x1680 || (0x2000 <= n
        && n <= 0x200a) || n == 0x2028 || n == 0x2029 || n == 0x202f || n == 0x205f || n == 0x3000
}

/// What `char::is_alphanumeric` answers outside ASCII.
pub uninterp spec fn unicode_alphanumeric(c: char) -> bool;

/// What `str::to_lowercase` gives for text that is not all ASCII.
pub uninterp spec fn unicode_lowercase(s: Seq<char>) -> Seq<char>;

pub open spec fn is_ascii_letter(c: char) -> bool {
    ('a' <= c <= 'z') || ('A' <= c <= 'Z')
}

pub open spec fn is_ascii_digit(c: char) -> bool {
    '0' <= c <= '9'
}

/// Letters and digits, in the Unicode sense.
pub open spec fn is_alphanumeric(c: char) -> bool {
    if (c as u32) < 128 {
        is_ascii_letter(c) || is_ascii_digit(c)
    } else {
        unicode_alphanumeric(c)
    }
}

/// `char::is_alphanumeric` of std. Claimed of it: an ASCII character is
/// alphanumeric if it is a letter or a digit; of any other the answer depends on
/// the character alone, and is named, not stated.
pub assume_specification[ char::is_alphanumeric ](c: char) -> (b: bool)
    ensures
        b == (if (c as u32) < 128 {
            is_ascii_letter(c) || is_ascii_digit(c)
        } else {
            unicode_alphanumeric(c)
        }),
;

/// `String::push` of std. Claimed of it: it appends the character and leaves
/// what was there before.
pub assume_specification[ String::push ](s: &mut String, c: char)
    ensures
        final(s)@ == old(s)@.push(c),
;

/// Lower case of one ASCII character; anything else is itself.
pub open spec fn ascii_lower(c: char) -> char {
    if 'A' <= c <= 'Z' {
        (c as u8 + 32) as char
    } else {
        c
    }
}

pub open spec fn all_ascii(s: Seq<char>) -> bool {
    forall|i: int| 0 <= i < s.len() ==> (#[trigger] s[i] as u32) < 128
}

/// Lower case of a whole text.
pub open spec fn lower(s: Seq<char>) -> Seq<char> {
    if all_ascii(s) {
        s.map_values(|c: char| ascii_lower(c))
    } else {
        unicode_lowercase(s)
    }
}

/// `str::to_lowercase` of std. Claimed of it: in a text that is all ASCII every
/// letter becomes its lower-case letter and nothing else changes; of any other
/// text the result depends on the text alone, and is named, not stated.
pub assume_specification[ str::to_lowercase ](s: &str) -> (r: String)
    ensures
        r@ == (if all_ascii(s@) {
            s@.map_values(|c: char| ascii_lower(c))
        } else {
            unicode_lowercase(s@)
        }),
;

pub fn char_ascii_lower(c: char) -> (r: char)
    ensures
        r == ascii_lower(c),
{
    if 'A' <= c && c <= 'Z' {
        (c as u8 + 32) as char
    } else {
        c
    }
}

/// The characters of a text, one by one.
pub fn chars_of(s: &str) -> (v: Vec<char>)
    ensures
        v@ == s@,
{
    let mut v: Vec<char> = Vec::new();
    for c in it: s.chars()
        invariant
            it.seq() == s@,
            v@ == s@.take(it.index()),
    {
        v.push(c);
        assert(s@.take(it.index() + 1) == s@.take(it.index()).push(c));
    }
    assert(s@.take(s@.len() as int) == s@);
    v
}


/// The text made of `v[from..to]`.
pub fn text_of(v: &Vec<char>, from: usize, to: usize) -> (r: String)
    requires
        from <= to <= v@.len(),
    ensures
        r@ == v@.subrange(from as int, to as int),
{
    let mut r = String::new();
    let mut i: usize = from;
    while i < to
        invariant
            from <= i <= to <= v@.len(),
            r@ == v@.subrange(from as int, i as int),
        decreases to - i,
    {
        r.push(v[i]);
        i += 1;
        assert(v@.subrange(from as int, i as int) == v@.subrange(from as int, i - 1).push(
            v@[i - 1],
        ));
    }
    r
}

/// Whether two texts are the same.
pub fn same(a: &str, b: &str) -> (r: bool)
    ensures
        r == (a@ == b@),
{
    let x: Vec<char> = chars_of(a);
    let y: Vec<char> = chars_of(b);
    if x.len() != y.len() {
        return false;
    }
    let mut i: usize = 0;
    while i < x.len()
        invariant
            x@ == a@,
            y@ == b@,
            x@.len() == y@.len(),
            i <= x@.len(),
            forall|j: int| 0 <= j < i ==> x@[j] == y@[j],
        decreases x@.len() - i,
    {
        if x[i] != y[i] {
            return false;
        }
        i += 1;
    }
    assert(x@ == y@);
    true
}

/// What the `Debug` formatting of a string slice writes: the text in quotes,
/// with escapes.
pub uninterp spec fn debug_text(s: Seq<char>) -> Seq<char>;

/// Calls the `Debug` formatting of `str` through `format!`. Of what it writes
/// nothing is claimed but that the same text always gives the same.
#[verifier::external_body]
pub(crate) fn quote(s: &str) -> (r: String)
    ensures
        r@ == debug_text(s@),
{
    format!("{:?}", s)
}

/// A list of texts as a sequence of character sequences.
pub open spec fn views(v: Seq<String>) -> Seq<Seq<char>> {
    Seq::new(v.len(), |i: int| v[i]@)
}

// ---------------------------------------------------------------------------
// Trimming
// ---------------------------------------------------------------------------
/// `s` without the leading characters that satisfy `p`.
pub open spec fn drop_front(s: Seq<char>, p: spec_fn(char) -> bool) -> Seq<char>
    decreases s.len(),
{
    if s.len() > 0 && p(s[0]) {
        drop_front(s.drop_first(), p)
    } else {
        s
    }
}

/// `s` without the trailing characters that satisfy `p`.
pub open spec fn drop_back(s: Seq<char>, p: spec_fn(char) -> bool) -> Seq<char>
    decreases s.len(),
{
    if s.len() > 0 && p(s.last()) {
        drop_back(s.drop_last(), p)
    } else {
        s
    }
}

/// `s` without the characters at either end that satisfy `p`.
pub open spec fn strip(s: Seq<char>, p: spec_fn(char) -> bool) -> Seq<char> {
    drop_back(drop_front(s, p), p)
}

pub open spec fn space_pred() -> spec_fn(char) -> bool {
    |c: char| is_space(c)
}

pub open spec fn symbol_pred() -> spec_fn(char) -> bool {
    |c: char| !is_alphanumeric(c)
}

/// `s` without white space at either end.
pub open spec fn trimmed(s: Seq<char>) -> Seq<char> {
    strip(s, space_pred())
}

/// `s` without white space at its end.
pub open spec fn trimmed_end(s: Seq<char>) -> Seq<char> {
    drop_back(s, space_pred())
}

/// `s` without leading and trailing characters that are neither letters nor digits.
pub open spec fn bare(s: Seq<char>) -> Seq<char> {
    strip(s, symbol_pred())
}

/// First position of `v[..to]` at or after `from` that is not white space, or `to`.
fn skip_spaces(v: &Vec<char>, from: usize, to: usize) -> (i: usize)
    requires
        from <= to <= v@.len(),
    ensures
        from <= i <= to,
        v@.subrange(i as int, to as int) == drop_front(
            v@.subrange(from as int, to as int),
            space_pred(),
        ),
{
    let mut i: usize = from;
    while i < to
        invariant_except_break
            from <= i <= to <= v@.len(),
            drop_front(v@.subrange(i as int, to as int), space_pred()) == drop_front(
                v@.subrange(from as int, to as int),
                space_pred(),
            ),
        ensures
            from <= i <= to,
            v@.subrange(i as int, to as int) == drop_front(
                v@.subrange(from as int, to as int),
                space_pred(),
            ),
        decreases to - i,
    {
        let ghost cur = v@.subrange(i as int, to as int);
        assert(cur[0] == v@[i as int]);
        if !char_is_space(v[i]) {
            break;
        }
        assert(cur.drop_first() == v@.subrange(i + 1, to as int));
        i += 1;
    }
    i
}

/// End of `v[from..to]` once trailing white space is dropped.
fn skip_spaces_back(v: &Vec<char>, from: usize, to: usize) -> (i: usize)
    requires
        from <= to <= v@.len(),
    ensures
        from <= i <= to,
        v@.subrange(from as int, i as int) == drop_back(
            v@.subrange(from as int, to as int),
            space_pred(),
        ),
{
    let mut i: usize = to;
    while i > from
        invariant_except_break
            from <= i <= to <= v@.len(),
            drop_back(v@.subrange(from as int, i as int), space_pred()) == drop_back(
                v@.subrange(from as int, to as int),
                space_pred(),
            ),
        ensures
            from <= i <= to,
            v@.subrange(from as int, i as int) == drop_back(
                v@.subrange(from as int, to as int),
                space_pred(),
            ),
        decreases i,
    {
        let ghost cur = v@.subrange(from as int, i as int);
        assert(cur.last() == v@[i - 1]);
        if !char_is_space(v[i - 1]) {
            break;
        }
        assert(cur.drop_last() == v@.subrange(from as int, i - 1));
        i -= 1;
    }
    i
}

/// White space removed at both ends.
pub fn trim(s: &str) -> (r: String)
    ensures
        r@ == trimmed(s@),
{
    let v: Vec<char> = chars_of(s);
    assert(v@.subrange(0, v@.len() as int) == v@);
    let n: usize = v.len();
    let a: usize = skip_spaces(&v, 0, n);
    let b: usize = skip_spaces_back(&v, a, n);
    text_of(&v, a, b)
}

/// White space removed at the end.
pub fn trim_end(s: &str) -> (r: String)
    ensures
        r@ == trimmed_end(s@),
{
    let v: Vec<char> = chars_of(s);
    assert(v@.subrange(0, v@.len() as int) == v@);
    let n: usize = v.len();
    let b: usize = skip_spaces_back(&v, 0, n);
    text_of(&v, 0, b)
}

/// Surrounding punctuation removed.
pub fn trim_symbols(s: &str) -> (r: String)
    ensures
        r@ == bare(s@),
{
    let v: Vec<char> = chars_of(s);
    let n: usize = v.len();
    let mut a: usize = 0;
    assert(v@.subrange(0, n as int) == v@);
    while a < n
        invariant_except_break
            a <= n == v@.len(),
            drop_front(v@.subrange(a as int, n as int), symbol_pred()) == drop_front(
                v@,
                symbol_pred(),
            ),
        ensures
            a <= n,
            v@.subrange(a as int, n as int) == drop_front(v@, symbol_pred()),
        decreases n - a,
    {
        let ghost cur = v@.subrange(a as int, n as int);
        assert(cur[0] == v@[a as int]);
        if v[a].is_alphanumeric() {
            break;
        }
        assert(cur.drop_first() == v@.subrange(a + 1, n as int));
        a += 1;
    }
    let mut b: usize = n;
    let ghost front = v@.subrange(a as int, n as int);
    while b > a
        invariant_except_break
            a <= b <= n == v@.len(),
            drop_back(v@.subrange(a as int, b as int), symbol_pred()) == drop_back(
                front,
                symbol_pred(),
            ),
        ensures
            a <= b <= n,
            v@.subrange(a as int, b as int) == drop_back(front, symbol_pred()),
        decreases b,
    {
        let ghost cur = v@.subrange(a as int, b as int);
        assert(cur.last() == v@[b - 1]);
        if v[b - 1].is_alphanumeric() {
            break;
        }
        assert(cur.drop_last() == v@.subrange(a as int, b - 1));
        b -= 1;
    }
    text_of(&v, a, b)
}

// ---------------------------------------------------------------------------
// Words
// ---------------------------------------------------------------------------
/// A left-to-right scan: the words completed so far and the one being read.
pub open spec fn scan_words(
    state: (Seq<Seq<char>>, Seq<char>),
    s: Seq<char>,
) -> (Seq<Seq<char>>, Seq<char>)
    decreases s.len(),
{
    if s.len() == 0 {
        state
    } else {
        let (done, cur) = scan_words(state, s.drop_last());
        if !is_space(s.last()) {
            (done, cur.push(s.last()))
        } else if cur.len() > 0 {
            (done.push(cur), Seq::empty())
        } else {
            (done, cur)
        }
    }
}

/// Closes the word being read, if there is one.
pub open spec fn close_words(state: (Seq<Seq<char>>, Seq<char>)) -> Seq<Seq<char>> {
    if state.1.len() > 0 {
        state.0.push(state.1)
    } else {
        state.0
    }
}

/// The white-space separated words of a text, in order.
pub open spec fn words(s: Seq<char>) -> Seq<Seq<char>> {
    close_words(scan_words((Seq::empty(), Seq::empty()), s))
}

/// Splits a text at white space.
pub fn split_whitespace(s: &str) -> (r: Vec<String>)
    ensures
        views(r@) == words(s@),
{
    let v: Vec<char> = chars_of(s);
    let mut done: Vec<String> = Vec::new();
    let mut cur = String::new();
    let mut i: usize = 0;
    assert(views(done@) == Seq::<Seq<char>>::empty());
    while i < v.len()
        invariant
            i <= v@.len(),
            scan_words((Seq::empty(), Seq::empty()), v@.take(i as int)) == (views(done@), cur@),
        decreases v@.len() - i,
    {
        let ghost next = v@.take(i + 1);
        assert(next.drop_last() == v@.take(i as int));
        assert(next.last() == v@[i as int]);
        if !char_is_space(v[i]) {
            cur.push(v[i]);
        } else if !cur.as_str().is_empty() {
            let ghost before = done@;
            let ghost word = cur@;
            done.push(cur);
            cur = String::new();
            assert(views(done@) == views(before).push(word));
        }
        i += 1;
    }
    assert(v@.take(v@.len() as int) == v@);
    if !cur.as_str().is_empty() {
        let ghost before = done@;
        let ghost word = cur@;
        done.push(cur);
        assert(views(done@) == views(before).push(word));
    }
    done
}

/// Whether `w` is a word: not empty, and no white space in it.
pub open spec fn is_word(w: Seq<char>) -> bool {
    w.len() > 0 && forall|i: int| 0 <= i < w.len() ==> !is_space(#[trigger] w[i])
}

/// Scanning in two parts is scanning the whole.
pub proof fn lemma_scan_append(state: (Seq<Seq<char>>, Seq<char>), a: Seq<char>, b: Seq<char>)
    ensures
        scan_words(state, a + b) == scan_words(scan_words(state, a), b),
    decreases b.len(),
{
    if b.len() == 0 {
        assert(a + b == a);
    } else {
        assert((a + b).drop_last() == a + b.drop_last());
        lemma_scan_append(state, a, b.drop_last());
    }
}

/// Words completed before a scan stay in front of what it finds.
pub proof fn lemma_scan_prefix(done: Seq<Seq<char>>, s: Seq<char>)
    ensures
        scan_words((done, Seq::empty()), s).0 == done + scan_words(
            (Seq::empty(), Seq::empty()),
            s,
        ).0,
        scan_words((done, Seq::empty()), s).1 == scan_words((Seq::empty(), Seq::empty()), s).1,
    decreases s.len(),
{
    if s.len() == 0 {
        assert(done + Seq::<Seq<char>>::empty() == done);
    } else {
        lemma_scan_prefix(done, s.drop_last());
        let (d0, c0) = scan_words((Seq::empty(), Seq::empty()), s.drop_last());
        assert((done + d0).push(c0) == done + d0.push(c0));
    }
}

/// A separator splits the words of a text into those before and those after it.
pub proof fn lemma_words_concat(a: Seq<char>, c: char, b: Seq<char>)
    requires
        is_space(c),
    ensures
        words(a + seq![c] + b) == words(a) + words(b),
{
    let start = (Seq::<Seq<char>>::empty(), Seq::<char>::empty());
    lemma_scan_append(start, a + seq![c], b);
    lemma_scan_append(start, a, seq![c]);
    let st = scan_words(start, a);
    assert(seq![c].drop_last() == Seq::<char>::empty());
    assert(scan_words(st, seq![c].drop_last()) == st);
    assert(scan_words(st, seq![c]) == (close_words(st), Seq::<char>::empty()));
    lemma_scan_prefix(close_words(st), b);
    let sb = scan_words(start, b);
    assert((words(a) + sb.0).push(sb.1) == words(a) + sb.0.push(sb.1));
}

/// Where the second of two texts begins with white space, no word runs across
/// the place where they meet.
pub proof fn lemma_words_meet(a: Seq<char>, b: Seq<char>)
    requires
        b.len() > 0 ==> is_space(b[0]) || a.len() == 0,
    ensures
        words(a + b) == words(a) + words(b),
{
    if b.len() == 0 {
        assert(a + b =~= a);
        assert(words(b) =~= Seq::<Seq<char>>::empty());
        assert(words(a) + words(b) =~= words(a));
    } else if a.len() == 0 {
        assert(a + b =~= b);
        assert(a =~= Seq::<char>::empty());
        assert(words(a) =~= Seq::<Seq<char>>::empty());
        assert(words(a) + words(b) =~= words(b));
    } else {
        let rest = b.drop_first();
        lemma_words_concat(a, b[0], rest);
        assert(a + seq![b[0]] + rest =~= a + b);
        lemma_words_concat(Seq::empty(), b[0], rest);
        assert(Seq::<char>::empty() + seq![b[0]] + rest =~= b);
        assert(words(Seq::<char>::empty()) =~= Seq::<Seq<char>>::empty());
        assert(Seq::<Seq<char>>::empty() + words(rest) =~= words(rest));
    }
}

/// A text with no white space is read as one word.
pub proof fn lemma_scan_one(state: (Seq<Seq<char>>, Seq<char>), w: Seq<char>)
    requires
        forall|i: int| 0 <= i < w.len() ==> !is_space(#[trigger] w[i]),
    ensures
        scan_words(state, w) == (state.0, state.1 + w),
    decreases w.len(),
{
    if w.len() == 0 {
        assert(state.1 + w == state.1);
    } else {
        assert(forall|i: int|
            0 <= i < w.drop_last().len() ==> w.drop_last()[i] == #[trigger] w[i]);
        lemma_scan_one(state, w.drop_last());
        assert((state.1 + w.drop_last()).push(w.last()) == state.1 + w);
    }
}

/// A single word is its own only word.
pub proof fn lemma_words_one(w: Seq<char>)
    requires
        is_word(w),
    ensures
        words(w) == seq![w],
{
    lemma_scan_one((Seq::empty(), Seq::empty()), w);
    assert(Seq::<char>::empty() + w == w);
    assert(Seq::<Seq<char>>::empty().push(w) == seq![w]);
}

pub proof fn lemma_scan_are_words(s: Seq<char>)
    ensures
        ({
            let st = scan_words((Seq::empty(), Seq::empty()), s);
            &&& forall|i: int| 0 <= i < st.0.len() ==> is_word(#[trigger] st.0[i])
            &&& st.1.len() > 0 ==> is_word(st.1)
        }),
    decreases s.len(),
{
    if s.len() > 0 {
        lemma_scan_are_words(s.drop_last());
    }
}

/// Every piece that `words` gives is a word.
pub proof fn lemma_words_are_words(s: Seq<char>)
    ensures
        forall|i: int| 0 <= i < words(s).len() ==> is_word(#[trigger] words(s)[i]),
{
    lemma_scan_are_words(s);
}

/// White space at the front carries no word.
pub proof fn lemma_words_drop_front(s: Seq<char>)
    ensures
        words(drop_front(s, space_pred())) == words(s),
    decreases s.len(),
{
    if s.len() > 0 && is_space(s[0]) {
        lemma_words_drop_front(s.drop_first());
        lemma_words_concat(Seq::empty(), s[0], s.drop_first());
        assert(Seq::<char>::empty() + seq![s[0]] + s.drop_first() == s);
        assert(words(Seq::<char>::empty()) == Seq::<Seq<char>>::empty());
        assert(Seq::<Seq<char>>::empty() + words(s.drop_first()) == words(s.drop_first()));
    }
}

/// White space at the back carries no word.
pub proof fn lemma_words_drop_back(s: Seq<char>)
    ensures
        words(drop_back(s, space_pred())) == words(s),
    decreases s.len(),
{
    if s.len() > 0 && is_space(s.last()) {
        lemma_words_drop_back(s.drop_last());
        lemma_words_concat(s.drop_last(), s.last(), Seq::empty());
        assert(s.drop_last() + seq![s.last()] + Seq::<char>::empty() == s);
        assert(words(Seq::<char>::empty()) == Seq::<Seq<char>>::empty());
        assert(words(s.drop_last()) + Seq::<Seq<char>>::empty() == words(s.drop_last()));
    }
}

/// Trimming keeps the words of a text.
pub proof fn lemma_words_trimmed(s: Seq<char>)
    ensures
        words(trimmed(s)) == words(s),
{
    lemma_words_drop_front(s);
    lemma_words_drop_back(drop_front(s, space_pred()));
}

// ---------------------------------------------------------------------------
// Joining
// ---------------------------------------------------------------------------
/// `parts` with `sep` between neighbours.
pub open spec fn joined(parts: Seq<Seq<char>>, sep: Seq<char>) -> Seq<char>
    decreases parts.len(),
{
    if parts.len() == 0 {
        Seq::empty()
    } else if parts.len() == 1 {
        parts[0]
    } else {
        joined(parts.drop_last(), sep) + sep + parts.last()
    }
}

/// Joins texts with a separator.
pub fn join(parts: &Vec<String>, sep: &str) -> (r: String)
    ensures
        r@ == joined(views(parts@), sep@),
{
    let mut r = String::new();
    let mut i: usize = 0;
    assert(views(parts@).take(0) == Seq::<Seq<char>>::empty());
    while i < parts.len()
        invariant
            i <= parts@.len(),
            r@ == joined(views(parts@).take(i as int), sep@),
        decreases parts@.len() - i,
    {
        let ghost next = views(parts@).take(i + 1);
        assert(next.drop_last() == views(parts@).take(i as int));
        assert(next.last() == parts@[i as int]@);
        if i > 0 {
            r.append(sep);
        }
        let ghost before = r@;
        r.append(parts[i].as_str());
        assert(i == 0 ==> r@ == parts@[0]@);
        i += 1;
    }
    assert(views(parts@).take(parts@.len() as int) == views(parts@));
    r
}

/// The words of several texts, one text after the other.
pub open spec fn all_words(parts: Seq<Seq<char>>) -> Seq<Seq<char>>
    decreases parts.len(),
{
    if parts.len() == 0 {
        Seq::empty()
    } else {
        all_words(parts.drop_last()) + words(parts.last())
    }
}

pub proof fn lemma_all_words_append(a: Seq<Seq<char>>, b: Seq<Seq<char>>)
    ensures
        all_words(a + b) == all_words(a) + all_words(b),
    decreases b.len(),
{
    if b.len() == 0 {
        assert(a + b =~= a);
        assert(all_words(a) + all_words(b) =~= all_words(a));
    } else {
        lemma_all_words_append(a, b.drop_last());
        assert((a + b).drop_last() =~= a + b.drop_last());
        assert((all_words(a) + all_words(b.drop_last())) + words(b.last()) =~= all_words(a) + (
        all_words(b.drop_last()) + words(b.last())));
    }
}

/// How many characters several texts hold together.
pub open spec fn total_len(parts: Seq<Seq<char>>) -> nat
    decreases parts.len(),
{
    if parts.len() == 0 {
        0
    } else {
        total_len(parts.drop_last()) + parts.last().len()
    }
}

pub proof fn lemma_total_len_append(a: Seq<Seq<char>>, b: Seq<Seq<char>>)
    ensures
        total_len(a + b) == total_len(a) + total_len(b),
    decreases b.len(),
{
    if b.len() == 0 {
        assert(a + b =~= a);
    } else {
        lemma_total_len_append(a, b.drop_last());
        assert((a + b).drop_last() =~= a + b.drop_last());
    }
}

/// Of several texts that are not empty, none is longer than all of them
/// together but one character for each other.
pub proof fn lemma_part_len(parts: Seq<Seq<char>>, k: int)
    requires
        0 <= k < parts.len(),
        forall|i: int| 0 <= i < parts.len() ==> (#[trigger] parts[i]).len() > 0,
    ensures
        parts[k].len() + parts.len() - 1 <= total_len(parts),
    decreases parts.len(),
{
    let front = parts.drop_last();
    assert forall|i: int| 0 <= i < front.len() implies (#[trigger] front[i]).len() > 0 by {
        assert(front[i] == parts[i]);
    }
    if k < front.len() {
        lemma_part_len(front, k);
        assert(parts[parts.len() - 1].len() > 0);
    } else if front.len() > 0 {
        lemma_part_len(front, 0);
        assert(front[0].len() > 0);
    }
}

proof fn lemma_scan_len(s: Seq<char>)
    ensures
        ({
            let st = scan_words((Seq::empty(), Seq::empty()), s);
            total_len(st.0) + st.0.len() + st.1.len() <= s.len()
        }),
    decreases s.len(),
{
    if s.len() > 0 {
        lemma_scan_len(s.drop_last());
        let (done, cur) = scan_words((Seq::empty(), Seq::empty()), s.drop_last());
        assert(done.push(cur).drop_last() =~= done);
    }
}

/// The words of a text, with one space between neighbours, are no longer than
/// the text.
pub proof fn lemma_words_len(s: Seq<char>)
    ensures
        total_len(words(s)) + words(s).len() <= s.len() + 1,
{
    lemma_scan_len(s);
    let (done, cur) = scan_words((Seq::empty(), Seq::empty()), s);
    assert(done.push(cur).drop_last() =~= done);
}

/// White space is gone from either end of a trimmed text.
pub proof fn lemma_trimmed_ends(s: Seq<char>)
    ensures
        trimmed(s).len() > 0 ==> !is_space(trimmed(s)[0]) && !is_space(trimmed(s).last()),
{
    lemma_drop_front_ends(s);
    lemma_drop_back_ends(drop_front(s, space_pred()));
}

proof fn lemma_drop_front_ends(s: Seq<char>)
    ensures
        drop_front(s, space_pred()).len() > 0 ==> !is_space(drop_front(s, space_pred())[0]),
    decreases s.len(),
{
    if s.len() > 0 && is_space(s[0]) {
        lemma_drop_front_ends(s.drop_first());
    }
}

proof fn lemma_drop_back_ends(s: Seq<char>)
    ensures
        drop_back(s, space_pred()).len() > 0 ==> !is_space(drop_back(s, space_pred()).last())
            && drop_back(s, space_pred())[0] == s[0],
    decreases s.len(),
{
    if s.len() > 0 && is_space(s.last()) {
        lemma_drop_back_ends(s.drop_last());
    }
}

/// Trimming does not lengthen a text, and shortens one that starts with white
/// space.
pub proof fn lemma_trimmed_len(s: Seq<char>)
    ensures
        trimmed(s).len() <= s.len(),
        s.len() > 0 && is_space(s[0]) ==> trimmed(s).len() < s.len(),
{
    lemma_drop_front_len(s, space_pred());
    lemma_drop_back_len(drop_front(s, space_pred()), space_pred());
    if s.len() > 0 && is_space(s[0]) {
        lemma_drop_front_len(s.drop_first(), space_pred());
    }
}

proof fn lemma_drop_front_len(s: Seq<char>, p: spec_fn(char) -> bool)
    ensures
        drop_front(s, p).len() <= s.len(),
    decreases s.len(),
{
    if s.len() > 0 && p(s[0]) {
        lemma_drop_front_len(s.drop_first(), p);
    }
}

proof fn lemma_drop_back_len(s: Seq<char>, p: spec_fn(char) -> bool)
    ensures
        drop_back(s, p).len() <= s.len(),
    decreases s.len(),
{
    if s.len() > 0 && p(s.last()) {
        lemma_drop_back_len(s.drop_last(), p);
    }
}

// ---------------------------------------------------------------------------
// Searching
// ---------------------------------------------------------------------------
/// The first index of `c` in `s` at or after `i`, or the length.
pub open spec fn index_from(s: Seq<char>, c: char, i: int) -> int
    decreases s.len() - i,
{
    if i >= s.len() {
        s.len() as int
    } else if s[i] == c {
        i
    } else {
        index_from(s, c, i + 1)
    }
}

/// What is found lies ahead.
pub proof fn lemma_index_from(s: Seq<char>, c: char, i: int)
    requires
        i <= s.len(),
    ensures
        i <= index_from(s, c, i) <= s.len(),
    decreases s.len() - i,
{
    if i < s.len() && s[i] != c {
        lemma_index_from(s, c, i + 1);
    }
}

/// The first index of a character at or after `i`, or the length.
pub fn find_char(v: &Vec<char>, c: char, i: usize) -> (r: usize)
    requires
        i <= v@.len(),
    ensures
        r == index_from(v@, c, i as int),
        i <= r <= v@.len(),
{
    let mut k: usize = i;
    while k < v.len() && v[k] != c
        invariant
            i <= k <= v@.len(),
            index_from(v@, c, i as int) == index_from(v@, c, k as int),
        decreases v@.len() - k,
    {
        k += 1;
    }
    k
}

/// Whether `needle` stands in `hay` at position `i`.
pub open spec fn occurs_at(hay: Seq<char>, needle: Seq<char>, i: int) -> bool {
    0 <= i && i + needle.len() <= hay.len() && hay.subrange(i, i + needle.len()) == needle
}

/// Whether `needle` stands somewhere in `hay`.
pub open spec fn occurs(hay: Seq<char>, needle: Seq<char>) -> bool {
    exists|i: int| occurs_at(hay, needle, i)
}

/// The first position of `needle` in `hay`, at or after `from`.
pub open spec fn first_at(hay: Seq<char>, needle: Seq<char>, from: int) -> Option<int>
    decreases hay.len() - from,
{
    if from + needle.len() > hay.len() {
        None
    } else if occurs_at(hay, needle, from) {
        Some(from)
    } else if from >= hay.len() {
        None
    } else {
        first_at(hay, needle, from + 1)
    }
}

proof fn lemma_first_at(hay: Seq<char>, needle: Seq<char>, from: int, i: int)
    requires
        from <= i,
        occurs_at(hay, needle, i),
        forall|j: int| from <= j < i ==> !occurs_at(hay, needle, j),
    ensures
        first_at(hay, needle, from) == Some(i),
    decreases i - from,
{
    if from < i {
        assert(!occurs_at(hay, needle, from));
        lemma_first_at(hay, needle, from + 1, i);
    }
}

proof fn lemma_first_at_none(hay: Seq<char>, needle: Seq<char>, from: int)
    requires
        forall|j: int| from <= j ==> !occurs_at(hay, needle, j),
    ensures
        first_at(hay, needle, from) is None,
    decreases hay.len() - from,
{
    if from + needle.len() <= hay.len() && from < hay.len() {
        assert(!occurs_at(hay, needle, from));
        lemma_first_at_none(hay, needle, from + 1);
    } else if from + needle.len() <= hay.len() {
        assert(!occurs_at(hay, needle, from));
    }
}

/// The first position of `needle` in `hay`, at or after `from`.
pub fn find_from(hay: &Vec<char>, needle: &str, from: usize) -> (r: Option<usize>)
    requires
        from <= hay@.len(),
    ensures
        match r {
            Some(i) => from <= i && occurs_at(hay@, needle@, i as int) && forall|j: int|
                from <= j < i ==> !occurs_at(hay@, needle@, j),
            None => forall|j: int| from <= j ==> !occurs_at(hay@, needle@, j),
        },
        match r {
            Some(i) => first_at(hay@, needle@, from as int) == Some(i as int),
            None => first_at(hay@, needle@, from as int) is None,
        },
{
    let pat: Vec<char> = chars_of(needle);
    if pat.len() > hay.len() {
        return None;
    }
    let last: usize = hay.len() - pat.len();
    let mut i: usize = from;
    while i <= last
        invariant
            pat@ == needle@,
            last == hay@.len() - pat@.len(),
            from <= i,
            hay@.len() <= usize::MAX,
            forall|j: int| from <= j < i ==> !occurs_at(hay@, needle@, j),
        decreases last + 1 - i,
    {
        let mut k: usize = 0;
        while k < pat.len()
            invariant_except_break
                k <= pat@.len(),
                forall|m: int| 0 <= m < k ==> hay@[i + m] == pat@[m],
            invariant
                pat@ == needle@,
                i <= last,
                last == hay@.len() - pat@.len(),
                hay@.len() <= usize::MAX,
            ensures
                k <= pat@.len(),
                k == pat@.len() ==> forall|m: int| 0 <= m < k ==> hay@[i + m] == pat@[m],
                k < pat@.len() ==> hay@[i + k] != pat@[k as int],
            decreases pat@.len() - k,
        {
            if hay[i + k] != pat[k] {
                break;
            }
            k += 1;
        }
        if k == pat.len() {
            assert(hay@.subrange(i as int, i + needle@.len()) == needle@);
            proof {
                lemma_first_at(hay@, needle@, from as int, i as int);
            }
            return Some(i);
        }
        assert(!occurs_at(hay@, needle@, i as int)) by {
            if occurs_at(hay@, needle@, i as int) {
                assert(hay@.subrange(i as int, i + needle@.len())[k as int] == needle@[k as int]);
            }
        }
        i += 1;
    }
    proof {
        lemma_first_at_none(hay@, needle@, from as int);
    }
    None
}

/// Whether `hay` contains `needle`.
pub fn contains(hay: &str, needle: &str) -> (r: bool)
    ensures
        r == occurs(hay@, needle@),
{
    let v: Vec<char> = chars_of(hay);
    match find_from(&v, needle, 0) {
        Some(i) => {
            assert(occurs_at(hay@, needle@, i as int));
            true
        },
        None => {
            assert(forall|j: int| !occurs_at(hay@, needle@, j));
            false
        },
    }
}

// ---------------------------------------------------------------------------
// Laws
// ---------------------------------------------------------------------------
/// A search finds the first occurrence from where it starts, and gives up only
/// where there is none.
pub proof fn law_the_first_occurrence_is_found(hay: Seq<char>, needle: Seq<char>, from: int)
    requires
        0 <= from,
    ensures
        match first_at(hay, needle, from) {
            Some(i) => {
                &&& from <= i && i + needle.len() <= hay.len()
                &&& hay.subrange(i, i + needle.len()) == needle
                &&& occurs_at(hay, needle, i)
                &&& forall|j: int| from <= j < i ==> !#[trigger] occurs_at(hay, needle, j)
            },
            None => forall|j: int| from <= j ==> !#[trigger] occurs_at(hay, needle, j),
        },
    decreases hay.len() - from,
{
    if from + needle.len() <= hay.len() && !occurs_at(hay, needle, from) && from < hay.len() {
        law_the_first_occurrence_is_found(hay, needle, from + 1);
    }
}

proof fn lemma_dropped_back(s: Seq<char>)
    ensures
        ({
            let t = drop_back(s, space_pred());
            &&& t.len() <= s.len()
            &&& t == s.take(t.len() as int)
            &&& forall|k: int| t.len() <= k < s.len() ==> is_space(#[trigger] s[k])
            &&& t.len() > 0 ==> !is_space(t.last())
        }),
    decreases s.len(),
{
    if s.len() > 0 && is_space(s.last()) {
        lemma_dropped_back(s.drop_last());
        let t = drop_back(s, space_pred());
        assert(t =~= s.take(t.len() as int));
        assert forall|k: int| t.len() <= k < s.len() implies is_space(#[trigger] s[k]) by {
            if k < s.len() - 1 {
                assert(s.drop_last()[k] == s[k]);
            }
        }
    } else {
        assert(s =~= s.take(s.len() as int));
    }
}

proof fn lemma_dropped_front(s: Seq<char>)
    ensures
        ({
            let t = drop_front(s, space_pred());
            let n = s.len() - t.len();
            &&& t.len() <= s.len()
            &&& t == s.skip(n)
            &&& forall|k: int| 0 <= k < n ==> is_space(#[trigger] s[k])
            &&& t.len() > 0 ==> !is_space(t[0])
        }),
    decreases s.len(),
{
    if s.len() > 0 && is_space(s[0]) {
        lemma_dropped_front(s.drop_first());
        let t = drop_front(s, space_pred());
        let n = s.len() - t.len();
        assert(t =~= s.skip(n));
        assert forall|k: int| 0 <= k < n implies is_space(#[trigger] s[k]) by {
            if k > 0 {
                assert(s.drop_first()[k - 1] == s[k]);
            }
        }
    } else {
        assert(s =~= s.skip(0));
    }
}

/// Trimming the end takes white space off it, all of it, and nothing else.
pub proof fn law_trimming_the_end_takes_only_space(s: Seq<char>)
    ensures
        trimmed_end(s).len() <= s.len(),
        trimmed_end(s) == s.take(trimmed_end(s).len() as int),
        forall|k: int| trimmed_end(s).len() <= k < s.len() ==> is_space(#[trigger] s[k]),
        trimmed_end(s).len() > 0 ==> !is_space(trimmed_end(s).last()),
{
    lemma_dropped_back(s);
}

/// Trimming takes white space off both ends, all of it, and nothing else. The
/// result is where the trimmed text starts.
pub proof fn law_trimming_takes_only_space(s: Seq<char>) -> (from: int)
    ensures
        0 <= from && from + trimmed(s).len() <= s.len(),
        trimmed(s) == s.subrange(from, from + trimmed(s).len()),
        forall|k: int|
            0 <= k < from || from + trimmed(s).len() <= k < s.len() ==> is_space(#[trigger] s[k]),
        trimmed(s).len() > 0 ==> !is_space(trimmed(s)[0]) && !is_space(trimmed(s).last()),
{
    let front = drop_front(s, space_pred());
    lemma_dropped_front(s);
    lemma_dropped_back(front);
    lemma_trimmed_ends(s);
    let from = s.len() - front.len();
    let t = trimmed(s);
    assert(t =~= s.subrange(from, from + t.len()));
    assert forall|k: int| 0 <= k < from || from + t.len() <= k < s.len() implies is_space(
        #[trigger] s[k],
    ) by {
        if k >= from {
            assert(front[k - from] == s[k]);
        }
    }
    from
}

proof fn lemma_dropped_by(s: Seq<char>, p: spec_fn(char) -> bool)
    ensures
        ({
            let t = drop_back(s, p);
            &&& t.len() <= s.len()
            &&& t == s.take(t.len() as int)
            &&& forall|k: int| t.len() <= k < s.len() ==> p(#[trigger] s[k])
            &&& t.len() > 0 ==> !p(t.last())
        }),
    decreases s.len(),
{
    if s.len() > 0 && p(s.last()) {
        lemma_dropped_by(s.drop_last(), p);
        let t = drop_back(s, p);
        assert(t =~= s.take(t.len() as int));
        assert forall|k: int| t.len() <= k < s.len() implies p(#[trigger] s[k]) by {
            if k < s.len() - 1 {
                assert(s.drop_last()[k] == s[k]);
            }
        }
    } else {
        assert(s =~= s.take(s.len() as int));
    }
}

proof fn lemma_skipped_by(s: Seq<char>, p: spec_fn(char) -> bool)
    ensures
        ({
            let t = drop_front(s, p);
            let n = s.len() - t.len();
            &&& t.len() <= s.len()
            &&& t == s.skip(n)
            &&& forall|k: int| 0 <= k < n ==> p(#[trigger] s[k])
            &&& t.len() > 0 ==> !p(t[0])
        }),
    decreases s.len(),
{
    if s.len() > 0 && p(s[0]) {
        lemma_skipped_by(s.drop_first(), p);
        let t = drop_front(s, p);
        let n = s.len() - t.len();
        assert(t =~= s.skip(n));
        assert forall|k: int| 0 <= k < n implies p(#[trigger] s[k]) by {
            if k > 0 {
                assert(s.drop_first()[k - 1] == s[k]);
            }
        }
    } else {
        assert(s =~= s.skip(0));
    }
}

/// A bare text has lost the symbols at both its ends, all of them, and nothing
/// else. The result is where it starts.
pub proof fn law_a_bare_text_has_lost_only_symbols(s: Seq<char>) -> (from: int)
    ensures
        0 <= from && from + bare(s).len() <= s.len(),
        bare(s) == s.subrange(from, from + bare(s).len()),
        forall|k: int|
            0 <= k < from || from + bare(s).len() <= k < s.len() ==> !is_alphanumeric(
                #[trigger] s[k],
            ),
        bare(s).len() > 0 ==> is_alphanumeric(bare(s)[0]) && is_alphanumeric(bare(s).last()),
{
    let p = symbol_pred();
    let front = drop_front(s, p);
    lemma_skipped_by(s, p);
    lemma_dropped_by(front, p);
    let from = s.len() - front.len();
    let t = bare(s);
    assert(t =~= s.subrange(from, from + t.len()));
    assert forall|k: int|
        0 <= k < from || from + t.len() <= k < s.len() implies !is_alphanumeric(#[trigger] s[k]) by {
        if k >= from {
            assert(front[k - from] == s[k]);
            assert(p(front[k - from]));
        } else {
            assert(p(s[k]));
        }
    }
    if t.len() > 0 {
        assert(!p(t.last()));
        assert(t[0] == front[0]);
        assert(!p(front[0]));
    }
    from
}

} // verus!
