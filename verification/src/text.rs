//! Character-level reading of instruction text: whitespace splitting,
//! trailing-comma trimming, mnemonic recognition and integer literals.
use vstd::prelude::*;

verus! {

// ---------------------------------------------------------------------
// Characters of a string
// ---------------------------------------------------------------------

/// The characters of `s`, in order.
pub fn chars_of(s: &str) -> (r: Vec<char>)
    ensures
        r@ == s@,
{
    let n = s.unicode_len();
    let mut v: Vec<char> = Vec::new();
    let mut i: usize = 0;
    while i < n
        invariant
            n == s@.len(),
            i <= n,
            v@ == s@.subrange(0, i as int),
        decreases n - i,
    {
        let c = s.get_char(i);
        v.push(c);
        i = i + 1;
    }
    v
}

// ---------------------------------------------------------------------
// Whitespace and words
// ---------------------------------------------------------------------

/// The characters with the Unicode `White_Space` property.
pub open spec fn is_white_space(c: char) -> bool {
    ||| '\u{9}' <= c <= '\u{d}'
    ||| c == ' '
    ||| c == '\u{85}'
    ||| c == '\u{a0}'
    ||| c == '\u{1680}'
    ||| '\u{2000}' <= c <= '\u{200a}'
    ||| c == '\u{2028}'
    ||| c == '\u{2029}'
    ||| c == '\u{202f}'
    ||| c == '\u{205f}'
    ||| c == '\u{3000}'
}

/// Decides `is_white_space`.
pub fn white_space(c: char) -> (b: bool)
    ensures
        b == is_white_space(c),
{
    ('\u{9}' <= c && c <= '\u{d}') || c == ' ' || c == '\u{85}' || c == '\u{a0}' || c
        == '\u{1680}' || ('\u{2000}' <= c && c <= '\u{200a}') || c == '\u{2028}' || c
        == '\u{2029}' || c == '\u{202f}' || c == '\u{205f}' || c == '\u{3000}'
}

/// Reading `s` from the left: the words already closed, and the word in progress.
pub open spec fn scan_words(s: Seq<char>) -> (Seq<Seq<char>>, Seq<char>)
    decreases s.len(),
{
    if s.len() == 0 {
        (Seq::empty(), Seq::empty())
    } else {
        let (done, cur) = scan_words(s.drop_last());
        let c = s.last();
        if is_white_space(c) {
            if cur.len() > 0 {
                (done.push(cur), Seq::empty())
            } else {
                (done, cur)
            }
        } else {
            (done, cur.push(c))
        }
    }
}

/// The maximal runs of non-whitespace characters of `s`, in order.
pub open spec fn words(s: Seq<char>) -> Seq<Seq<char>> {
    let (done, cur) = scan_words(s);
    if cur.len() > 0 {
        done.push(cur)
    } else {
        done
    }
}

/// The text of each span.
pub open spec fn span_texts(s: Seq<char>, spans: Seq<(usize, usize)>) -> Seq<Seq<char>> {
    Seq::new(spans.len(), |k: int| s.subrange(spans[k].0 as int, spans[k].1 as int))
}

/// Every span lies within the first `n` characters.
pub open spec fn spans_within(spans: Seq<(usize, usize)>, n: int) -> bool {
    forall|k: int| 0 <= k < spans.len() ==> 0 <= #[trigger] spans[k].0 <= spans[k].1 <= n
}

/// Where the words of `s` stand: one span `(start, end)` per word, in order.
pub fn word_spans(s: &Vec<char>) -> (spans: Vec<(usize, usize)>)
    ensures
        spans_within(spans@, s@.len() as int),
        span_texts(s@, spans@) == words(s@),
{
    let n = s.len();
    let mut spans: Vec<(usize, usize)> = Vec::new();
    let mut start: usize = 0;
    let mut in_word = false;
    let mut i: usize = 0;
    while i < n
        invariant
            n == s@.len(),
            i <= n,
            start <= i,
            in_word ==> start < i,
            spans_within(spans@, i as int),
            scan_words(s@.take(i as int)) == (span_texts(s@, spans@), if in_word {
                s@.subrange(start as int, i as int)
            } else {
                Seq::<char>::empty()
            }),
        decreases n - i,
    {
        let c = s[i];
        proof {
            assert(s@.take(i + 1).drop_last() =~= s@.take(i as int));
            assert(s@.take(i + 1).last() == c);
        }
        if white_space(c) {
            if in_word {
                let ghost old_spans = spans@;
                spans.push((start, i));
                in_word = false;
                proof {
                    assert(span_texts(s@, spans@) =~= span_texts(s@, old_spans).push(
                        s@.subrange(start as int, i as int),
                    ));
                }
            }
        } else {
            if !in_word {
                start = i;
                in_word = true;
                proof {
                    assert(s@.subrange(start as int, i + 1) =~= Seq::<char>::empty().push(c));
                }
            } else {
                proof {
                    assert(s@.subrange(start as int, i + 1) =~= s@.subrange(
                        start as int,
                        i as int,
                    ).push(c));
                }
            }
        }
        i = i + 1;
    }
    proof {
        assert(s@.take(n as int) =~= s@);
    }
    if in_word {
        let ghost old_spans = spans@;
        spans.push((start, n));
        proof {
            assert(span_texts(s@, spans@) =~= span_texts(s@, old_spans).push(
                s@.subrange(start as int, n as int),
            ));
        }
    } else {
        proof {
            assert(span_texts(s@, spans@) =~= words(s@));
        }
    }
    spans
}


/// A line of text together with where its words stand.
pub struct WordList {
    chars: Vec<char>,
    spans: Vec<(usize, usize)>,
}

impl WordList {
    /// The characters of the line.
    pub closed spec fn text(&self) -> Seq<char> {
        self.chars@
    }

    /// The spans agree with the words of the line.
    pub closed spec fn wf(&self) -> bool {
        &&& spans_within(self.spans@, self.chars@.len() as int)
        &&& span_texts(self.chars@, self.spans@) == words(self.chars@)
    }

    /// The words of `s`.
    pub fn of(s: &str) -> (w: WordList)
        ensures
            w.wf(),
            w.text() == s@,
    {
        let chars = chars_of(s);
        let spans = word_spans(&chars);
        WordList { chars, spans }
    }

    /// The number of words.
    pub fn len(&self) -> (n: usize)
        requires
            self.wf(),
        ensures
            n == words(self.text()).len(),
    {
        proof {
            assert(span_texts(self.chars@, self.spans@).len() == self.spans@.len());
        }
        self.spans.len()
    }

    /// Where word `k` starts and ends.
    pub fn bounds(&self, k: usize) -> (r: (usize, usize))
        requires
            self.wf(),
            k < words(self.text()).len(),
        ensures
            r.0 <= r.1 <= self.text().len(),
            self.text().subrange(r.0 as int, r.1 as int) == words(self.text())[k as int],
    {
        proof {
            assert(span_texts(self.chars@, self.spans@)[k as int] == self.chars@.subrange(
                self.spans@[k as int].0 as int,
                self.spans@[k as int].1 as int,
            ));
        }
        self.spans[k]
    }

    /// Word `k` of the line `s` these words were taken from.
    pub fn word<'a>(&self, s: &'a str, k: usize) -> (r: &'a str)
        requires
            self.wf(),
            self.text() == s@,
            k < words(self.text()).len(),
        ensures
            r@ == words(s@)[k as int],
    {
        let (a, b) = self.bounds(k);
        s.substring_char(a, b)
    }

    /// Word `k` of the line `s`, without its trailing commas.
    pub fn trimmed_word<'a>(&self, s: &'a str, k: usize) -> (r: &'a str)
        requires
            self.wf(),
            self.text() == s@,
            k < words(self.text()).len(),
        ensures
            r@ == trim_commas(words(s@)[k as int]),
    {
        let (a, b) = self.bounds(k);
        let e = trim_commas_end(&self.chars, a, b);
        s.substring_char(a, e)
    }

    /// The mnemonic that word `k` names.
    pub fn mnemonic(&self, k: usize) -> (m: Option<Mnemonic>)
        requires
            self.wf(),
            k < words(self.text()).len(),
        ensures
            m == mnemonic_of(words(self.text())[k as int]),
    {
        let (a, b) = self.bounds(k);
        mnemonic_at(&self.chars, a, b)
    }

    /// Word `k` read as a `usize` in decimal.
    pub fn usize_word(&self, k: usize) -> (r: Option<usize>)
        requires
            self.wf(),
            k < words(self.text()).len(),
        ensures
            r == usize_literal(words(self.text())[k as int]),
    {
        let (a, b) = self.bounds(k);
        usize_literal_at(&self.chars, a, b)
    }
}

// ---------------------------------------------------------------------
// Trailing commas
// ---------------------------------------------------------------------

/// `t` without all of its trailing commas.
pub open spec fn trim_commas(t: Seq<char>) -> Seq<char>
    decreases t.len(),
{
    if t.len() > 0 && t.last() == ',' {
        trim_commas(t.drop_last())
    } else {
        t
    }
}

/// The end of the text `s[lo..hi]` once its trailing commas are removed.
pub fn trim_commas_end(s: &Vec<char>, lo: usize, hi: usize) -> (e: usize)
    requires
        lo <= hi <= s@.len(),
    ensures
        lo <= e <= hi,
        s@.subrange(lo as int, e as int) == trim_commas(s@.subrange(lo as int, hi as int)),
{
    let mut e = hi;
    while e > lo && s[e - 1] == ','
        invariant
            lo <= e <= hi <= s@.len(),
            trim_commas(s@.subrange(lo as int, e as int)) == trim_commas(
                s@.subrange(lo as int, hi as int),
            ),
        decreases e,
    {
        assert(s@.subrange(lo as int, e - 1) =~= s@.subrange(lo as int, e as int).drop_last());
        e = e - 1;
    }
    e
}

// ---------------------------------------------------------------------
// Mnemonics
// ---------------------------------------------------------------------

/// The uppercase mapping of `c` when it consists of ASCII capital letters only,
/// and the empty sequence otherwise.
pub open spec fn upper_letters(c: char) -> Seq<char> {
    if 'a' <= c <= 'z' {
        seq![((c as int) - 32) as char]
    } else if 'A' <= c <= 'Z' {
        seq![c]
    } else if c == '\u{df}' {
        seq!['S', 'S']
    } else if c == '\u{131}' {
        seq!['I']
    } else if c == '\u{17f}' {
        seq!['S']
    } else if c == '\u{fb00}' {
        seq!['F', 'F']
    } else if c == '\u{fb01}' {
        seq!['F', 'I']
    } else if c == '\u{fb02}' {
        seq!['F', 'L']
    } else if c == '\u{fb03}' {
        seq!['F', 'F', 'I']
    } else if c == '\u{fb04}' {
        seq!['F', 'F', 'L']
    } else if c == '\u{fb05}' || c == '\u{fb06}' {
        seq!['S', 'T']
    } else {
        Seq::empty()
    }
}

/// The uppercase mapping of one character, when it is made of ASCII capital
/// letters; empty otherwise.
pub fn upper_letters_of(c: char) -> (r: Vec<char>)
    ensures
        r@ == upper_letters(c),
{
    if 'a' <= c && c <= 'z' {
        let u = ((c as u32) - 32) as u8 as char;
        assert(u == ((c as int) - 32) as char);
        vec![u]
    } else if 'A' <= c && c <= 'Z' {
        vec![c]
    } else if c == '\u{df}' {
        vec!['S', 'S']
    } else if c == '\u{131}' {
        vec!['I']
    } else if c == '\u{17f}' {
        vec!['S']
    } else if c == '\u{fb00}' {
        vec!['F', 'F']
    } else if c == '\u{fb01}' {
        vec!['F', 'I']
    } else if c == '\u{fb02}' {
        vec!['F', 'L']
    } else if c == '\u{fb03}' {
        vec!['F', 'F', 'I']
    } else if c == '\u{fb04}' {
        vec!['F', 'F', 'L']
    } else if c == '\u{fb05}' || c == '\u{fb06}' {
        vec!['S', 'T']
    } else {
        Vec::new()
    }
}

/// The uppercase form of `t` when it is made of ASCII capital letters only;
/// `None` when some character of `t` has another uppercase form.
pub open spec fn upper_word(t: Seq<char>) -> Option<Seq<char>>
    decreases t.len(),
{
    if t.len() == 0 {
        Some(Seq::empty())
    } else {
        match upper_word(t.drop_last()) {
            Some(u) => if upper_letters(t.last()).len() > 0 {
                Some(u + upper_letters(t.last()))
            } else {
                None
            },
            None => None,
        }
    }
}

/// The instruction names that the simulators know.
#[derive(Clone, Copy, Debug, PartialEq, Eq, Structural)]
pub enum Mnemonic {
    Mov,
    Add,
    Sub,
    Mul,
    Div,
    And,
    Or,
    Xor,
    Not,
    Shl,
    Shr,
    Load,
    Store,
    Exit,
    State,
}

/// The mnemonic that an uppercase name spells.
pub open spec fn mnemonic_named(u: Seq<char>) -> Option<Mnemonic> {
    if u == seq!['M', 'O', 'V'] {
        Some(Mnemonic::Mov)
    } else if u == seq!['A', 'D', 'D'] {
        Some(Mnemonic::Add)
    } else if u == seq!['S', 'U', 'B'] {
        Some(Mnemonic::Sub)
    } else if u == seq!['M', 'U', 'L'] {
        Some(Mnemonic::Mul)
    } else if u == seq!['D', 'I', 'V'] {
        Some(Mnemonic::Div)
    } else if u == seq!['A', 'N', 'D'] {
        Some(Mnemonic::And)
    } else if u == seq!['O', 'R'] {
        Some(Mnemonic::Or)
    } else if u == seq!['X', 'O', 'R'] {
        Some(Mnemonic::Xor)
    } else if u == seq!['N', 'O', 'T'] {
        Some(Mnemonic::Not)
    } else if u == seq!['S', 'H', 'L'] {
        Some(Mnemonic::Shl)
    } else if u == seq!['S', 'H', 'R'] {
        Some(Mnemonic::Shr)
    } else if u == seq!['L', 'O', 'A', 'D'] {
        Some(Mnemonic::Load)
    } else if u == seq!['S', 'T', 'O', 'R', 'E'] {
        Some(Mnemonic::Store)
    } else if u == seq!['E', 'X', 'I', 'T'] {
        Some(Mnemonic::Exit)
    } else if u == seq!['S', 'T', 'A', 'T', 'E'] {
        Some(Mnemonic::State)
    } else {
        None
    }
}

/// The mnemonic whose name `t` is, compared after conversion to uppercase.
pub open spec fn mnemonic_of(t: Seq<char>) -> Option<Mnemonic> {
    match upper_word(t) {
        Some(u) => mnemonic_named(u),
        None => None,
    }
}

fn same_chars(u: &Vec<char>, k: &[char]) -> (b: bool)
    ensures
        b == (u@ == k@),
{
    if u.len() != k.len() {
        return false;
    }
    let mut i: usize = 0;
    while i < u.len()
        invariant
            u@.len() == k@.len(),
            i <= u@.len(),
            forall|j: int| 0 <= j < i ==> u@[j] == k@[j],
        decreases u@.len() - i,
    {
        if u[i] != k[i] {
            return false;
        }
        i = i + 1;
    }
    assert(u@ =~= k@);
    true
}

fn mnemonic_named_exec(u: &Vec<char>) -> (m: Option<Mnemonic>)
    ensures
        m == mnemonic_named(u@),
{
    if same_chars(u, &['M', 'O', 'V']) {
        Some(Mnemonic::Mov)
    } else if same_chars(u, &['A', 'D', 'D']) {
        Some(Mnemonic::Add)
    } else if same_chars(u, &['S', 'U', 'B']) {
        Some(Mnemonic::Sub)
    } else if same_chars(u, &['M', 'U', 'L']) {
        Some(Mnemonic::Mul)
    } else if same_chars(u, &['D', 'I', 'V']) {
        Some(Mnemonic::Div)
    } else if same_chars(u, &['A', 'N', 'D']) {
        Some(Mnemonic::And)
    } else if same_chars(u, &['O', 'R']) {
        Some(Mnemonic::Or)
    } else if same_chars(u, &['X', 'O', 'R']) {
        Some(Mnemonic::Xor)
    } else if same_chars(u, &['N', 'O', 'T']) {
        Some(Mnemonic::Not)
    } else if same_chars(u, &['S', 'H', 'L']) {
        Some(Mnemonic::Shl)
    } else if same_chars(u, &['S', 'H', 'R']) {
        Some(Mnemonic::Shr)
    } else if same_chars(u, &['L', 'O', 'A', 'D']) {
        Some(Mnemonic::Load)
    } else if same_chars(u, &['S', 'T', 'O', 'R', 'E']) {
        Some(Mnemonic::Store)
    } else if same_chars(u, &['E', 'X', 'I', 'T']) {
        Some(Mnemonic::Exit)
    } else if same_chars(u, &['S', 'T', 'A', 'T', 'E']) {
        Some(Mnemonic::State)
    } else {
        None
    }
}

/// The mnemonic that the text `s[lo..hi]` names, compared after conversion
/// to uppercase.
pub fn mnemonic_at(s: &Vec<char>, lo: usize, hi: usize) -> (m: Option<Mnemonic>)
    requires
        lo <= hi <= s@.len(),
    ensures
        m == mnemonic_of(s@.subrange(lo as int, hi as int)),
{
    let mut u: Vec<char> = Vec::new();
    let mut i = lo;
    while i < hi
        invariant
            lo <= i <= hi <= s@.len(),
            upper_word(s@.subrange(lo as int, i as int)) == Some(u@),
        decreases hi - i,
    {
        let c = s[i];
        assert(s@.subrange(lo as int, i + 1).drop_last() =~= s@.subrange(lo as int, i as int));
        let up = upper_letters_of(c);
        if up.len() == 0 {
            proof {
                assert(upper_word(s@.subrange(lo as int, i + 1)) is None);
                lemma_upper_word_none_extends(s@.subrange(lo as int, hi as int), i + 1 - lo);
                assert(s@.subrange(lo as int, hi as int).take(i + 1 - lo) =~= s@.subrange(
                    lo as int,
                    i + 1,
                ));
            }
            return None;
        }
        let mut k: usize = 0;
        let ghost before = u@;
        while k < up.len()
            invariant
                k <= up@.len(),
                u@ == before + up@.take(k as int),
            decreases up@.len() - k,
        {
            u.push(up[k]);
            assert(up@.take(k + 1) =~= up@.take(k as int).push(up@[k as int]));
            k = k + 1;
        }
        assert(up@.take(up@.len() as int) =~= up@);
        i = i + 1;
    }
    mnemonic_named_exec(&u)
}

/// Once a prefix of `t` has no all-letter uppercase form, neither has `t`.
proof fn lemma_upper_word_none_extends(t: Seq<char>, k: int)
    requires
        0 <= k <= t.len(),
        upper_word(t.take(k)) is None,
    ensures
        upper_word(t) is None,
    decreases t.len() - k,
{
    if k < t.len() {
        assert(t.take(k + 1).drop_last() =~= t.take(k));
        lemma_upper_word_none_extends(t, k + 1);
    } else {
        assert(t.take(k) =~= t);
    }
}

// ---------------------------------------------------------------------
// Integer literals
// ---------------------------------------------------------------------

/// The value of `c` as a digit (letters count from ten on, in either case);
/// 36 for a character that is no digit in any radix.
pub open spec fn digit_of(c: char) -> nat {
    if '0' <= c <= '9' {
        (c as int - '0' as int) as nat
    } else if 'a' <= c <= 'z' {
        (c as int - 'a' as int + 10) as nat
    } else if 'A' <= c <= 'Z' {
        (c as int - 'A' as int + 10) as nat
    } else {
        36
    }
}

/// Every character of `d` is a digit in `radix`.
pub open spec fn all_digits(d: Seq<char>, radix: nat) -> bool {
    forall|i: int| 0 <= i < d.len() ==> digit_of(#[trigger] d[i]) < radix
}

/// The value of the digits `d`, most significant first.
pub open spec fn digits_value(d: Seq<char>, radix: nat) -> nat
    decreases d.len(),
{
    if d.len() == 0 {
        0
    } else {
        digits_value(d.drop_last(), radix) * radix + digit_of(d.last())
    }
}

/// The value of a nonempty run of digits; `None` for anything else.
pub open spec fn digits_literal(d: Seq<char>, radix: nat) -> Option<nat> {
    if d.len() > 0 && all_digits(d, radix) {
        Some(digits_value(d, radix))
    } else {
        None
    }
}

/// An unsigned literal: one optional leading `+`, then digits.
pub open spec fn unsigned_literal(t: Seq<char>, radix: nat) -> Option<nat> {
    if t.len() > 0 && t[0] == '+' {
        digits_literal(t.drop_first(), radix)
    } else {
        digits_literal(t, radix)
    }
}

/// A signed decimal literal: one optional leading `+` or `-`, then digits.
pub open spec fn signed_literal(t: Seq<char>) -> Option<int> {
    if t.len() > 0 && t[0] == '-' {
        match digits_literal(t.drop_first(), 10) {
            Some(v) => Some(-v),
            None => None,
        }
    } else {
        match unsigned_literal(t, 10) {
            Some(v) => Some(v as int),
            None => None,
        }
    }
}

/// `t` read as an `i32` in decimal; `None` when it is no literal or out of range.
pub open spec fn i32_literal(t: Seq<char>) -> Option<i32> {
    match signed_literal(t) {
        Some(v) => if i32::MIN <= v <= i32::MAX {
            Some(v as i32)
        } else {
            None
        },
        None => None,
    }
}

/// `t` read as a `u128` in `radix`; `None` when it is no literal or out of range.
pub open spec fn u128_literal(t: Seq<char>, radix: nat) -> Option<u128> {
    match unsigned_literal(t, radix) {
        Some(v) => if v <= u128::MAX {
            Some(v as u128)
        } else {
            None
        },
        None => None,
    }
}

/// `t` read as a `usize` in decimal; `None` when it is no literal or out of range.
pub open spec fn usize_literal(t: Seq<char>) -> Option<usize> {
    match unsigned_literal(t, 10) {
        Some(v) => if v <= usize::MAX {
            Some(v as usize)
        } else {
            None
        },
        None => None,
    }
}

fn digit_value(c: char) -> (d: u32)
    ensures
        d == digit_of(c),
{
    if '0' <= c && c <= '9' {
        (c as u32) - ('0' as u32)
    } else if 'a' <= c && c <= 'z' {
        (c as u32) - ('a' as u32) + 10
    } else if 'A' <= c && c <= 'Z' {
        (c as u32) - ('A' as u32) + 10
    } else {
        36
    }
}

/// The run of digits `s[lo..hi]` read in `radix`, when it is a nonempty run of
/// digits whose value fits in a `u128`.
fn digits_at(s: &Vec<char>, lo: usize, hi: usize, radix: u32) -> (r: Option<u128>)
    requires
        lo <= hi <= s@.len(),
        2 <= radix <= 36,
    ensures
        r == (match digits_literal(s@.subrange(lo as int, hi as int), radix as nat) {
            Some(v) => if v <= u128::MAX {
                Some(v as u128)
            } else {
                None
            },
            None => None,
        }),
{
    let ghost d = s@.subrange(lo as int, hi as int);
    if lo == hi {
        return None;
    }
    let mut acc: u128 = 0;
    let mut overflow = false;
    let mut i = lo;
    while i < hi
        invariant
            lo <= i <= hi <= s@.len(),
            2 <= radix <= 36,
            d == s@.subrange(lo as int, hi as int),
            all_digits(s@.subrange(lo as int, i as int), radix as nat),
            !overflow ==> acc == digits_value(s@.subrange(lo as int, i as int), radix as nat),
            overflow ==> digits_value(s@.subrange(lo as int, i as int), radix as nat) > u128::MAX,
        decreases hi - i,
    {
        let ghost prefix = s@.subrange(lo as int, i as int);
        let ghost next = s@.subrange(lo as int, i + 1);
        assert(next.drop_last() =~= prefix);
        assert(next.last() == s@[i as int]);
        let dv = digit_value(s[i]);
        if dv >= radix {
            proof {
                assert(d[i - lo] == s@[i as int]);
                assert(!all_digits(d, radix as nat));
            }
            return None;
        }
        let ghost pv = digits_value(prefix, radix as nat);
        assert(digits_value(next, radix as nat) == pv * radix + dv);
        if !overflow {
            match acc.checked_mul(radix as u128) {
                Some(m) => match m.checked_add(dv as u128) {
                    Some(a) => {
                        acc = a;
                    },
                    None => {
                        overflow = true;
                    },
                },
                None => {
                    assert(pv * radix + dv >= pv * radix) by (nonlinear_arith)
                        requires dv >= 0;
                    overflow = true;
                },
            }
        } else {
            assert(pv * radix + dv >= pv) by (nonlinear_arith)
                requires
                    radix >= 2,
                    dv >= 0,
                    pv >= 0,
            ;
        }
        proof {
            assert forall|k: int| 0 <= k < next.len() implies digit_of(#[trigger] next[k])
                < radix as nat by {
                if k < prefix.len() {
                    assert(next[k] == prefix[k]);
                }
            }
        }
        i = i + 1;
    }
    if overflow {
        None
    } else {
        Some(acc)
    }
}

/// `s[lo..hi]` read as an unsigned literal in `radix` (an optional `+`, then
/// digits), when its value fits in a `u128`.
pub fn u128_literal_at(s: &Vec<char>, lo: usize, hi: usize, radix: u32) -> (r: Option<u128>)
    requires
        lo <= hi <= s@.len(),
        2 <= radix <= 36,
    ensures
        r == u128_literal(s@.subrange(lo as int, hi as int), radix as nat),
{
    let ghost t = s@.subrange(lo as int, hi as int);
    if lo < hi && s[lo] == '+' {
        assert(t.drop_first() =~= s@.subrange(lo + 1, hi as int));
        digits_at(s, lo + 1, hi, radix)
    } else {
        digits_at(s, lo, hi, radix)
    }
}

/// `s[lo..hi]` read as an `i32` in decimal (an optional `+` or `-`, then digits).
pub fn i32_literal_at(s: &Vec<char>, lo: usize, hi: usize) -> (r: Option<i32>)
    requires
        lo <= hi <= s@.len(),
    ensures
        r == i32_literal(s@.subrange(lo as int, hi as int)),
{
    let ghost t = s@.subrange(lo as int, hi as int);
    if lo < hi && s[lo] == '-' {
        assert(t.drop_first() =~= s@.subrange(lo + 1, hi as int));
        match digits_at(s, lo + 1, hi, 10) {
            Some(m) => {
                if m <= 0x8000_0000 {
                    Some((0 - (m as i64)) as i32)
                } else {
                    None
                }
            },
            None => None,
        }
    } else {
        match u128_literal_at(s, lo, hi, 10) {
            Some(m) => {
                if m <= 0x7fff_ffff {
                    Some(m as i32)
                } else {
                    None
                }
            },
            None => None,
        }
    }
}

/// `s[lo..hi]` read as a `usize` in decimal (an optional `+`, then digits).
pub fn usize_literal_at(s: &Vec<char>, lo: usize, hi: usize) -> (r: Option<usize>)
    requires
        lo <= hi <= s@.len(),
    ensures
        r == usize_literal(s@.subrange(lo as int, hi as int)),
{
    match u128_literal_at(s, lo, hi, 10) {
        Some(m) => {
            if m <= usize::MAX as u128 {
                Some(m as usize)
            } else {
                None
            }
        },
        None => None,
    }
}

// ---------------------------------------------------------------------
// Register names
// ---------------------------------------------------------------------

/// The decimal digit character for `d < 10`.
pub open spec fn decimal_digit(d: nat) -> char {
    ('0' as int + d) as char
}

/// The decimal digits of `n`, most significant first, without leading zeros.
pub open spec fn decimal(n: nat) -> Seq<char>
    decreases n,
{
    if n < 10 {
        seq![decimal_digit(n)]
    } else {
        decimal(n / 10).push(decimal_digit(n % 10))
    }
}

/// The name of register number `i`: `R` followed by `i` in decimal.
pub open spec fn register_name(i: nat) -> Seq<char> {
    seq!['R'] + decimal(i)
}

/// The decimal digit `d` as a one-character string.
fn digit_text(d: usize) -> (t: &'static str)
    requires
        d < 10,
    ensures
        t@ == seq![decimal_digit(d as nat)],
{
    proof {
        reveal_strlit("0");
        reveal_strlit("1");
        reveal_strlit("2");
        reveal_strlit("3");
        reveal_strlit("4");
        reveal_strlit("5");
        reveal_strlit("6");
        reveal_strlit("7");
        reveal_strlit("8");
        reveal_strlit("9");
    }
    match d {
        0 => "0",
        1 => "1",
        2 => "2",
        3 => "3",
        4 => "4",
        5 => "5",
        6 => "6",
        7 => "7",
        8 => "8",
        _ => "9",
    }
}

/// Writes the decimal digits of `n` at the end of `out`.
fn append_decimal(out: &mut String, n: usize)
    ensures
        final(out)@ == old(out)@ + decimal(n as nat),
    decreases n,
{
    if n >= 10 {
        append_decimal(out, n / 10);
    }
    out.append(digit_text(n % 10));
    proof {
        if n >= 10 {
            assert(old(out)@ + decimal((n / 10) as nat) + seq![decimal_digit((n % 10) as nat)] =~= old(out)@
                + decimal(n as nat));
        } else {
            assert(n % 10 == n);
            assert(old(out)@ + seq![decimal_digit((n % 10) as nat)] =~= old(out)@ + decimal(n as nat));
        }
    }
}

/// The name of register number `i`.
pub fn register_name_string(i: usize) -> (r: String)
    ensures
        r@ == register_name(i as nat),
{
    let mut name = String::from_str("R");
    proof {
        reveal_strlit("R");
    }
    append_decimal(&mut name, i);
    name
}

/// Registers `R{lo}` up to, not including, `R{hi}`, each holding `v`.
pub open spec fn numbered<V>(lo: int, hi: int, v: V) -> Map<Seq<char>, V> {
    Map::new(
        |k: Seq<char>| exists|i: int| lo <= i < hi && k == #[trigger] register_name(i as nat),
        |k: Seq<char>| v,
    )
}

/// Adding register `R{hi}` extends the numbered registers by one.
pub proof fn lemma_numbered_step<V>(lo: int, hi: int, v: V)
    requires
        0 <= lo <= hi,
    ensures
        numbered(lo, hi, v).insert(register_name(hi as nat), v) == numbered(lo, hi + 1, v),
{
    let before = numbered(lo, hi, v);
    let after = numbered(lo, hi + 1, v);
    let grown = before.insert(register_name(hi as nat), v);
    assert forall|k: Seq<char>| #[trigger] grown.dom().contains(k) <==> after.dom().contains(k) by {
        if k == register_name(hi as nat) {
            assert(lo <= hi < hi + 1 && k == register_name(hi as nat));
        } else if grown.dom().contains(k) {
            let i = choose|i: int| lo <= i < hi && k == #[trigger] register_name(i as nat);
            assert(lo <= i < hi + 1 && k == register_name(i as nat));
        }
        if after.dom().contains(k) {
            let i = choose|i: int| lo <= i < hi + 1 && k == #[trigger] register_name(i as nat);
            if i < hi {
                assert(before.dom().contains(k));
            }
        }
    }
    assert(grown =~= after);
}

/// The error text, or the value, of a `Result` whose error is a `String`.
pub open spec fn result_text<T>(r: Result<T, String>) -> Result<T, Seq<char>> {
    match r {
        Ok(v) => Ok(v),
        Err(e) => Err(e@),
    }
}

// ---------------------------------------------------------------------
// Laws
// ---------------------------------------------------------------------

/// `w` is a word: nonempty, without whitespace.
pub open spec fn is_word(w: Seq<char>) -> bool {
    w.len() > 0 && forall|i: int| 0 <= i < w.len() ==> !is_white_space(#[trigger] w[i])
}

proof fn lemma_scan_words_clean(s: Seq<char>)
    ensures
        forall|k: int| 0 <= k < scan_words(s).0.len() ==> is_word(#[trigger] scan_words(s).0[k]),
        forall|i: int| 0 <= i < scan_words(s).1.len() ==> !is_white_space(#[trigger] scan_words(s).1[i]),
    decreases s.len(),
{
    if s.len() > 0 {
        lemma_scan_words_clean(s.drop_last());
        let (done, cur) = scan_words(s.drop_last());
        let c = s.last();
        if !is_white_space(c) {
            assert forall|i: int| 0 <= i < cur.push(c).len() implies !is_white_space(#[trigger] cur.push(c)[i]) by {
                if i < cur.len() {
                    assert(cur.push(c)[i] == cur[i]);
                }
            }
        } else if cur.len() > 0 {
            assert forall|k: int| 0 <= k < done.push(cur).len() implies is_word(#[trigger] done.push(cur)[k]) by {
                if k < done.len() {
                    assert(done.push(cur)[k] == done[k]);
                }
            }
        }
    }
}

/// The words of a text are nonempty and hold no whitespace.
pub proof fn law_words_are_words(s: Seq<char>)
    ensures
        forall|k: int| 0 <= k < words(s).len() ==> is_word(#[trigger] words(s)[k]),
{
    lemma_scan_words_clean(s);
    let (done, cur) = scan_words(s);
    if cur.len() > 0 {
        assert forall|k: int| 0 <= k < done.push(cur).len() implies is_word(#[trigger] done.push(cur)[k]) by {
            if k < done.len() {
                assert(done.push(cur)[k] == done[k]);
            }
        }
    }
}

/// The decimal digits of a number read back as that number.
pub proof fn law_decimal_reads_back(n: nat)
    ensures
        digits_literal(decimal(n), 10) == Some(n),
    decreases n,
{
    assert(digit_of(decimal_digit(n % 10)) == n % 10);
    if n < 10 {
        assert(decimal(n).drop_last() =~= Seq::<char>::empty());
        assert(digits_value(Seq::<char>::empty(), 10) == 0);
        assert(n % 10 == n);
        assert(decimal(n).last() == decimal_digit(n));
        assert(digits_value(decimal(n), 10) == n);
        assert(all_digits(decimal(n), 10));
    } else {
        law_decimal_reads_back(n / 10);
        let d = decimal(n / 10);
        assert(decimal(n).drop_last() =~= d);
        assert(digits_value(decimal(n), 10) == (n / 10) * 10 + n % 10);
        assert forall|i: int| 0 <= i < decimal(n).len() implies digit_of(#[trigger] decimal(n)[i]) < 10 by {
            if i < d.len() {
                assert(decimal(n)[i] == d[i]);
            }
        }
    }
}

} // verus!
