use vstd::arithmetic::div_mod::*;
use vstd::prelude::*;
use vstd::std_specs::iter::IteratorSpec;
use vstd::string::*;

verus! {

/// `String::push` appends one character to the end of the string and leaves
/// the characters already there untouched.
pub assume_specification[ String::push ](s: &mut String, c: char)
    ensures
        final(s)@ == old(s)@.push(c),
;

/// Whether `c` is one of the two blank characters that separate tokens.
pub open spec fn is_blank(c: char) -> bool {
    c == ' ' || c == '\t'
}

/// Whether `c` is one of the ten decimal digits.
pub open spec fn is_digit(c: char) -> bool {
    '0' <= c && c <= '9'
}

/// The number a decimal digit stands for.
pub open spec fn digit_value(c: char) -> nat
    recommends
        is_digit(c),
{
    (c as u32 - '0' as u32) as nat
}

/// How many characters of `s` lie at or after `pos`.
pub open spec fn left(s: Seq<char>, pos: nat) -> nat {
    if pos <= s.len() {
        (s.len() - pos) as nat
    } else {
        0
    }
}

/// Length of the longest run of blanks that starts at `pos`.
pub open spec fn blanks(s: Seq<char>, pos: nat) -> nat
    decreases left(s, pos),
{
    if pos < s.len() && is_blank(s[pos as int]) {
        1 + blanks(s, pos + 1)
    } else {
        0
    }
}

/// Length of the longest run of non-blank characters that starts at `pos`.
pub open spec fn word(s: Seq<char>, pos: nat) -> nat
    decreases left(s, pos),
{
    if pos < s.len() && !is_blank(s[pos as int]) {
        1 + word(s, pos + 1)
    } else {
        0
    }
}

/// Length of the longest run of decimal digits that starts at `pos`.
pub open spec fn digits(s: Seq<char>, pos: nat) -> nat
    decreases left(s, pos),
{
    if pos < s.len() && is_digit(s[pos as int]) {
        1 + digits(s, pos + 1)
    } else {
        0
    }
}

/// The number written by a sequence of decimal digits, most significant
/// digit first. The empty sequence writes zero.
pub open spec fn decimal_value(d: Seq<char>) -> nat
    decreases d.len(),
{
    if d.len() == 0 {
        0
    } else {
        decimal_value(d.drop_last()) * 10 + digit_value(d.last())
    }
}

/// What is left of `v` in a machine word: `v` modulo two to the word size.
pub open spec fn wrapped(v: nat) -> usize {
    (v % (usize::MAX as nat + 1)) as usize
}

/// A run that starts at `pos` ends inside the input.
pub proof fn lemma_blanks_bound(s: Seq<char>, pos: nat)
    ensures
        pos <= s.len() ==> pos + blanks(s, pos) <= s.len(),
        pos + blanks(s, pos) < s.len() ==> !is_blank(s[(pos + blanks(s, pos)) as int]),
        forall|i: int| pos <= i < pos + blanks(s, pos) ==> is_blank(#[trigger] s[i]),
    decreases left(s, pos),
{
    if pos < s.len() && is_blank(s[pos as int]) {
        lemma_blanks_bound(s, pos + 1);
    }
}

/// Skipping blanks twice is skipping them once: behind a run of blanks no
/// blank follows, and at the end of the input there is none to skip.
pub proof fn lemma_blanks_idempotent(s: Seq<char>, pos: nat)
    ensures
        blanks(s, pos + blanks(s, pos)) == 0,
        pos >= s.len() ==> blanks(s, pos) == 0,
{
    lemma_blanks_bound(s, pos);
}

/// A run of non-blank characters that starts at `pos` ends inside the input,
/// at a blank or at the end.
pub proof fn lemma_word_bound(s: Seq<char>, pos: nat)
    ensures
        pos <= s.len() ==> pos + word(s, pos) <= s.len(),
        pos + word(s, pos) < s.len() ==> is_blank(s[(pos + word(s, pos)) as int]),
        forall|i: int| pos <= i < pos + word(s, pos) ==> !is_blank(#[trigger] s[i]),
    decreases left(s, pos),
{
    if pos < s.len() && !is_blank(s[pos as int]) {
        lemma_word_bound(s, pos + 1);
    }
}

/// A run of digits that starts at `pos` ends inside the input, at a character
/// that is no digit or at the end.
pub proof fn lemma_digits_bound(s: Seq<char>, pos: nat)
    ensures
        pos <= s.len() ==> pos + digits(s, pos) <= s.len(),
        pos + digits(s, pos) < s.len() ==> !is_digit(s[(pos + digits(s, pos)) as int]),
        forall|i: int| pos <= i < pos + digits(s, pos) ==> is_digit(#[trigger] s[i]),
    decreases left(s, pos),
{
    if pos < s.len() && is_digit(s[pos as int]) {
        lemma_digits_bound(s, pos + 1);
    }
}

/// A run that is cut after `k` characters which all belong to it goes on for
/// the rest of its length from there.
proof fn lemma_blanks_split(s: Seq<char>, pos: nat, k: nat)
    requires
        k <= blanks(s, pos),
    ensures
        blanks(s, pos) == k + blanks(s, pos + k),
    decreases k,
{
    if k > 0 {
        lemma_blanks_split(s, pos + 1, (k - 1) as nat);
    }
}

/// The same of a run of non-blank characters.
proof fn lemma_word_split(s: Seq<char>, pos: nat, k: nat)
    requires
        k <= word(s, pos),
    ensures
        word(s, pos) == k + word(s, pos + k),
    decreases k,
{
    if k > 0 {
        lemma_word_split(s, pos + 1, (k - 1) as nat);
    }
}

/// The same of a run of digits.
proof fn lemma_digits_split(s: Seq<char>, pos: nat, k: nat)
    requires
        k <= digits(s, pos),
    ensures
        digits(s, pos) == k + digits(s, pos + k),
    decreases k,
{
    if k > 0 {
        lemma_digits_split(s, pos + 1, (k - 1) as nat);
    }
}

/// One more digit `d` behind a number `v`, computed on the wrapped value of
/// `v`, wraps to the same machine word as when it is computed on `v` itself.
proof fn lemma_wrapped_step(v: nat, d: nat)
    requires
        d < 10,
    ensures
        wrapped((wrapped(v) * 10 + d) as nat) == wrapped(v * 10 + d),
{
    let m = usize::MAX as int + 1;
    lemma_mul_mod_noop_general(v as int, 10, m);
    lemma_add_mod_noop((v % (m as nat)) as int * 10, d as int, m);
    lemma_add_mod_noop(v as int * 10, d as int, m);
}

/// A cursor over a fixed sequence of characters.
///
/// The input never changes; the position only moves forward and never
/// passes the end of the input.
pub struct Consumer {
    queue: Vec<char>,
    pos: usize,
}

impl Consumer {
    #[verifier::type_invariant]
    spec fn in_bounds(&self) -> bool {
        self.pos <= self.queue.len()
    }

    /// The characters the consumer was built from.
    pub closed spec fn input(&self) -> Seq<char> {
        self.queue@
    }

    /// The index of the next character to be read.
    pub closed spec fn position(&self) -> nat {
        self.pos as nat
    }

    /// A consumer at the start of `s`.
    pub fn new(s: &str) -> (c: Self)
        ensures
            c.input() == s@,
            c.position() == 0,
    {
        let mut vec: Vec<char> = Vec::new();
        let mut it = s.chars();
        loop
            invariant
                vec@ + it.remaining() == s@,
                it.obeys_prophetic_iter_laws(),
                it.decrease() is Some,
            ensures
                vec@ == s@,
            decreases it.decrease()->0,
        {
            match it.next() {
                Some(c) => {
                    vec.push(c);
                },
                None => {
                    break ;
                },
            }
        }
        Self { queue: vec, pos: 0 }
    }

    /// Reads the next character, as a string of that one character.
    pub fn next(&mut self) -> (r: Option<String>)
        ensures
            final(self).input() == old(self).input(),
            final(self).position() <= final(self).input().len(),
            final(self).position() == old(self).position() + (if r is Some {
                1nat
            } else {
                0nat
            }),
            match r {
                Some(s) => old(self).position() < old(self).input().len() && s@ == seq![
                    old(self).input()[old(self).position() as int],
                ],
                None => old(self).position() >= old(self).input().len(),
            },
    {
        match self.next_char() {
            Some(c) => {
                let mut s = String::new();
                s.push(c);
                Some(s)
            },
            None => None,
        }
    }

    /// Reads the next character.
    pub fn next_char(&mut self) -> (r: Option<char>)
        ensures
            final(self).input() == old(self).input(),
            final(self).position() <= final(self).input().len(),
            final(self).position() == old(self).position() + (if r is Some {
                1nat
            } else {
                0nat
            }),
            r == if old(self).position() < old(self).input().len() {
                Some(old(self).input()[old(self).position() as int])
            } else {
                None
            },
    {
        proof {
            use_type_invariant(&*self);
        }
        if self.pos < self.queue.len() {
            let res = self.queue[self.pos];
            self.pos += 1;
            Some(res)
        } else {
            None
        }
    }

    /// Reads the next `n` characters. With fewer than `n` characters left,
    /// reads what is left and reports that the input did not suffice.
    pub fn next_n(&mut self, n: usize) -> (r: Option<String>)
        ensures
            final(self).input() == old(self).input(),
            final(self).position() <= final(self).input().len(),
            match r {
                Some(s) => {
                    &&& old(self).position() + n <= old(self).input().len()
                    &&& s@ == old(self).input().subrange(
                        old(self).position() as int,
                        old(self).position() + n,
                    )
                    &&& final(self).position() == old(self).position() + n
                },
                None => {
                    &&& old(self).position() + n > old(self).input().len()
                    &&& final(self).position() == old(self).input().len()
                },
            },
    {
        proof {
            use_type_invariant(&*self);
        }
        if n > self.queue.len() - self.pos {
            self.pos = self.queue.len();
            return None;
        }
        let start = self.pos;
        let mut res = String::new();
        let mut i: usize = 0;
        while i < n
            invariant
                start + n <= self.queue.len(),
                i <= n,
                self.pos == start + i,
                self.queue@ == old(self).queue@,
                res@ == self.queue@.subrange(start as int, start + i),
            decreases n - i,
        {
            res.push(self.queue[self.pos]);
            self.pos += 1;
            i += 1;
        }
        Some(res)
    }

    /// Reads up to the next blank or the end of the input, whichever comes
    /// first. The result is empty where the next character is a blank or the
    /// input is exhausted.
    pub fn next_until_space(&mut self) -> (r: Option<String>)
        ensures
            final(self).input() == old(self).input(),
            final(self).position() <= final(self).input().len(),
            final(self).position() == old(self).position() + word(
                old(self).input(),
                old(self).position(),
            ),
            r is Some,
            r->0@ == old(self).input().subrange(
                old(self).position() as int,
                final(self).position() as int,
            ),
    {
        proof {
            use_type_invariant(&*self);
            lemma_word_bound(self.queue@, self.pos as nat);
        }
        let start = self.pos;
        let mut res = String::new();
        loop
            invariant
                start <= self.pos <= self.queue.len(),
                self.queue@ == old(self).queue@,
                self.pos - start <= word(self.queue@, start as nat),
                res@ == self.queue@.subrange(start as int, self.pos as int),
            ensures
                start <= self.pos <= self.queue.len(),
                self.queue@ == old(self).queue@,
                self.pos - start == word(self.queue@, start as nat),
                res@ == self.queue@.subrange(start as int, self.pos as int),
            decreases self.queue.len() - self.pos,
        {
            proof {
                lemma_word_split(self.queue@, start as nat, (self.pos - start) as nat);
            }
            match self.peek_char() {
                Some(c) => {
                    if c == ' ' || c == '\t' {
                        break ;
                    } else {
                        self.pos += 1;
                        res.push(c);
                    }
                },
                None => {
                    break ;
                },
            }
        }
        Some(res)
    }

    /// The next character, as a string of that one character, without
    /// reading it.
    pub fn peek(&self) -> (r: Option<String>)
        ensures
            match r {
                Some(s) => self.position() < self.input().len() && s@ == seq![
                    self.input()[self.position() as int],
                ],
                None => self.position() >= self.input().len(),
            },
    {
        match self.peek_char() {
            Some(c) => {
                let mut s = String::new();
                s.push(c);
                Some(s)
            },
            None => None,
        }
    }

    /// The next character, without reading it.
    pub fn peek_char(&self) -> (r: Option<char>)
        ensures
            self.position() <= self.input().len(),
            r == if self.position() < self.input().len() {
                Some(self.input()[self.position() as int])
            } else {
                None
            },
    {
        proof {
            use_type_invariant(self);
        }
        if self.pos < self.queue.len() {
            Some(self.queue[self.pos])
        } else {
            None
        }
    }

    /// The next `n` characters, without reading them; nothing where fewer
    /// than `n` are left.
    pub fn peek_n(&self, n: usize) -> (r: Option<String>)
        ensures
            match r {
                Some(s) => {
                    &&& self.position() + n <= self.input().len()
                    &&& s@ == self.input().subrange(self.position() as int, self.position() + n)
                },
                None => self.position() + n > self.input().len(),
            },
    {
        proof {
            use_type_invariant(self);
        }
        if n > self.queue.len() - self.pos {
            return None;
        }
        let mut res = String::new();
        let mut i: usize = 0;
        while i < n
            invariant
                self.pos + n <= self.queue.len(),
                i <= n,
                res@ == self.queue@.subrange(self.pos as int, self.pos + i),
            decreases n - i,
        {
            res.push(self.queue[self.pos + i]);
            i += 1;
        }
        Some(res)
    }

    /// Reads an unsigned decimal number: the longest run of digits at the
    /// cursor. Nothing is read where the next character is no digit. The
    /// value is accumulated in a machine word without a guard against
    /// overflow, so a number too large for the word comes out wrapped.
    pub fn to_usize(&mut self) -> (r: Option<usize>)
        ensures
            final(self).input() == old(self).input(),
            final(self).position() <= final(self).input().len(),
            final(self).position() == old(self).position() + digits(
                old(self).input(),
                old(self).position(),
            ),
            r == if digits(old(self).input(), old(self).position()) == 0 {
                None
            } else {
                Some(
                    wrapped(
                        decimal_value(
                            old(self).input().subrange(
                                old(self).position() as int,
                                final(self).position() as int,
                            ),
                        ),
                    ),
                )
            },
    {
        proof {
            use_type_invariant(&*self);
            lemma_digits_bound(self.queue@, self.pos as nat);
        }
        let start = self.pos;
        let mut result: usize = 0;
        proof {
            assert(self.queue@.subrange(start as int, start as int).len() == 0);
            lemma_small_mod(0, usize::MAX as nat + 1);
        }
        loop
            invariant
                start <= self.pos <= self.queue.len(),
                self.queue@ == old(self).queue@,
                self.pos - start <= digits(self.queue@, start as nat),
                result == wrapped(
                    decimal_value(self.queue@.subrange(start as int, self.pos as int)),
                ),
            ensures
                start <= self.pos <= self.queue.len(),
                self.queue@ == old(self).queue@,
                self.pos - start == digits(self.queue@, start as nat),
                result == wrapped(
                    decimal_value(self.queue@.subrange(start as int, self.pos as int)),
                ),
            decreases self.queue.len() - self.pos,
        {
            proof {
                lemma_digits_split(self.queue@, start as nat, (self.pos - start) as nat);
            }
            match self.peek_char() {
                Some(c) => {
                    if '0' <= c && c <= '9' {
                        let n: usize = (c as u32 - '0' as u32) as usize;
                        proof {
                            let before = self.queue@.subrange(start as int, self.pos as int);
                            let after = self.queue@.subrange(start as int, self.pos + 1);
                            assert(after.drop_last() == before);
                            assert(after.last() == c);
                            lemma_wrapped_step(decimal_value(before), n as nat);
                            assert(result.wrapping_mul(10) as nat == (result as nat * 10) % (
                            usize::MAX as nat + 1));
                            lemma_add_mod_noop(
                                result as int * 10,
                                n as int,
                                usize::MAX as int + 1,
                            );
                            lemma_small_mod(n as nat, usize::MAX as nat + 1);
                        }
                        self.pos += 1;
                        result = result.wrapping_mul(10).wrapping_add(n);
                    } else {
                        break ;
                    }
                },
                None => {
                    break ;
                },
            }
        }
        if self.pos == start {
            None
        } else {
            Some(result)
        }
    }

    /// Moves past the blanks at the cursor, if there are any.
    pub fn skip_space(&mut self)
        ensures
            final(self).input() == old(self).input(),
            final(self).position() <= final(self).input().len(),
            final(self).position() == old(self).position() + blanks(
                old(self).input(),
                old(self).position(),
            ),
    {
        proof {
            use_type_invariant(&*self);
            lemma_blanks_bound(self.queue@, self.pos as nat);
        }
        let start = self.pos;
        loop
            invariant
                start <= self.pos <= self.queue.len(),
                self.queue@ == old(self).queue@,
                self.pos - start <= blanks(self.queue@, start as nat),
            ensures
                start <= self.pos <= self.queue.len(),
                self.queue@ == old(self).queue@,
                self.pos - start == blanks(self.queue@, start as nat),
            decreases self.queue.len() - self.pos,
        {
            proof {
                lemma_blanks_split(self.queue@, start as nat, (self.pos - start) as nat);
            }
            match self.peek_char() {
                Some(c) => {
                    if c == ' ' || c == '\t' {
                        self.pos += 1;
                    } else {
                        break ;
                    }
                },
                None => {
                    break ;
                },
            }
        }
    }
}

} // verus!
