//! Splitting input lines into tokens that are handed out one by one.

use vstd::prelude::*;
use vstd::std_specs::iter::IteratorSpec;

verus! {

/// `c` has the Unicode property `White_Space`.
pub open spec fn is_white_space(c: char) -> bool {
    let code = c as u32;
    ||| 0x09 <= code <= 0x0D
    ||| code == 0x20
    ||| code == 0x85
    ||| code == 0xA0
    ||| code == 0x1680
    ||| 0x2000 <= code <= 0x200A
    ||| code == 0x2028
    ||| code == 0x2029
    ||| code == 0x202F
    ||| code == 0x205F
    ||| code == 0x3000
}

/// The number of characters with which `s` starts that are white space
/// (`white`), or that are not.
pub open spec fn run(s: Seq<char>, white: bool) -> nat
    decreases s.len(),
{
    if s.len() > 0 && is_white_space(s[0]) == white {
        1 + run(s.drop_first(), white)
    } else {
        0
    }
}

/// A run is no longer than the sequence.
pub proof fn lemma_run(s: Seq<char>, white: bool)
    ensures
        run(s, white) <= s.len(),
    decreases s.len(),
{
    if s.len() > 0 && is_white_space(s[0]) == white {
        lemma_run(s.drop_first(), white);
    }
}

/// The words of `s`: its longest pieces without white space, in their order.
pub open spec fn words(s: Seq<char>) -> Seq<Seq<char>>
    decreases s.len(),
{
    let rest = s.skip(run(s, true) as int);
    let len = run(rest, false);
    if len == 0 {
        Seq::empty()
    } else {
        proof {
            lemma_run(s, true);
            lemma_run(rest, false);
        }
        seq![rest.take(len as int)] + words(rest.skip(len as int))
    }
}

/// `char::is_whitespace` of std: whether `c` has the Unicode property
/// `White_Space`.
pub assume_specification[ char::is_whitespace ](c: char) -> (white: bool)
    ensures
        white == is_white_space(c),
;

/// `String::from_iter` of std, on the characters of a vector: the string of
/// these characters.
#[verifier::external_body]
fn string_of(chars: &Vec<char>) -> (s: String)
    ensures
        s@ == chars@,
{
    chars.iter().collect()
}

/// The words that a scan from left to right ends with when it has `s` before
/// it, has found the words `done`, and has read `cur` of the next word.
spec fn scan(s: Seq<char>, done: Seq<Seq<char>>, cur: Seq<char>) -> Seq<Seq<char>>
    decreases s.len(),
{
    if s.len() == 0 {
        if cur.len() > 0 {
            done.push(cur)
        } else {
            done
        }
    } else if is_white_space(s[0]) {
        scan(
            s.drop_first(),
            if cur.len() > 0 {
                done.push(cur)
            } else {
                done
            },
            Seq::empty(),
        )
    } else {
        scan(s.drop_first(), done, cur.push(s[0]))
    }
}

/// The words that were found before stay in front of what a scan finds.
proof fn lemma_scan_done(s: Seq<char>, done: Seq<Seq<char>>, cur: Seq<char>)
    ensures
        scan(s, done, cur) == done + scan(s, Seq::empty(), cur),
    decreases s.len(),
{
    let none = Seq::<Seq<char>>::empty();
    if s.len() == 0 {
        assert(done + none =~= done);
        assert(done + none.push(cur) =~= done.push(cur));
    } else if is_white_space(s[0]) {
        if cur.len() > 0 {
            lemma_scan_done(s.drop_first(), done.push(cur), Seq::empty());
            lemma_scan_done(s.drop_first(), none.push(cur), Seq::empty());
            assert(done.push(cur) + scan(s.drop_first(), none, Seq::empty()) =~= done + (none.push(
                cur,
            ) + scan(s.drop_first(), none, Seq::empty())));
        } else {
            lemma_scan_done(s.drop_first(), done, Seq::empty());
        }
    } else {
        lemma_scan_done(s.drop_first(), done, cur.push(s[0]));
    }
}

/// White space in front of a sequence adds no word.
proof fn lemma_words_after_white(s: Seq<char>)
    requires
        s.len() > 0,
        is_white_space(s[0]),
    ensures
        words(s) == words(s.drop_first()),
{
    let tail = s.drop_first();
    lemma_run(tail, true);
    assert(s.skip(run(s, true) as int) =~= tail.skip(run(tail, true) as int));
}

/// A scan from left to right finds the words: after the word that it has
/// read `cur` of, if any, the words of what follows that word.
proof fn lemma_scan(s: Seq<char>, cur: Seq<char>)
    ensures
        scan(s, Seq::empty(), cur) == (if cur.len() > 0 {
            seq![cur + s.take(run(s, false) as int)] + words(s.skip(run(s, false) as int))
        } else {
            words(s)
        }),
    decreases s.len(),
{
    let none = Seq::<Seq<char>>::empty();
    lemma_run(s, false);
    if s.len() == 0 {
        assert(s.skip(run(s, true) as int) =~= s);
        if cur.len() > 0 {
            assert(cur + s.take(0) =~= cur);
            assert(s.skip(0) =~= s);
            assert(none.push(cur) =~= seq![cur] + words(s));
        }
    } else {
        let tail = s.drop_first();
        lemma_run(tail, false);
        if is_white_space(s[0]) {
            lemma_words_after_white(s);
            lemma_scan(tail, Seq::empty());
            if cur.len() > 0 {
                lemma_scan_done(tail, none.push(cur), Seq::empty());
                assert(cur + s.take(0) =~= cur);
                assert(s.skip(0) =~= s);
                assert(none.push(cur) =~= seq![cur]);
            }
        } else {
            lemma_scan(tail, cur.push(s[0]));
            let len = run(s, false) as int;
            assert(s.skip(len) =~= tail.skip(len - 1));
            assert(cur.push(s[0]) + tail.take(len - 1) =~= cur + s.take(len));
            if cur.len() == 0 {
                assert(s.skip(run(s, true) as int) =~= s);
                assert(cur + s.take(len) =~= s.take(len));
            }
        }
    }
}

/// The tokens of the lines of an input, handed out one by one. Reading the
/// lines is left to the caller, who passes each line to [`Scanner::refill`]
/// when [`Scanner::next`] has run out of tokens.
pub struct Scanner {
    buffer: Vec<String>,
}

impl Scanner {
    /// The tokens that are still to be handed out, the next one first.
    pub closed spec fn pending(&self) -> Seq<Seq<char>> {
        Seq::new(
            self.buffer.len() as nat,
            |i: int| self.buffer[self.buffer.len() - 1 - i]@,
        )
    }

    /// A scanner without tokens.
    pub fn new() -> (scanner: Self)
        ensures
            scanner.pending() == Seq::<Seq<char>>::empty(),
    {
        let scanner = Self { buffer: Vec::new() };
        assert(scanner.pending() =~= Seq::<Seq<char>>::empty());
        scanner
    }

    /// The next token; `None` when a line has to be read first.
    pub fn next(&mut self) -> (token: Option<String>)
        ensures
            old(self).pending().len() == 0 ==> token is None && final(self).pending() == old(
                self,
            ).pending(),
            old(self).pending().len() > 0 ==> token is Some && token.unwrap()@ == old(
                self,
            ).pending()[0] && final(self).pending() == old(self).pending().skip(1),
    {
        let token = self.buffer.pop();
        proof {
            if token is Some {
                assert(self.pending() =~= old(self).pending().skip(1));
            } else {
                assert(self.pending() =~= old(self).pending());
            }
        }
        token
    }

    /// Replaces the tokens that are left by the words of `line`.
    pub fn refill(&mut self, line: &str)
        ensures
            final(self).pending() == words(line@),
    {
        broadcast use vstd::string::group_string_axioms;

        let mut tokens: Vec<String> = Vec::new();
        let mut cur: Vec<char> = Vec::new();
        let mut chars = line.chars();
        let ghost none = Seq::<Seq<char>>::empty();
        proof {
            assert(chars.remaining() == line@);
            assert(tokens@.map_values(|t: String| t@) =~= none);
            assert(cur@ =~= Seq::<char>::empty());
        }
        loop
            invariant_except_break
                scan(chars.remaining(), tokens@.map_values(|t: String| t@), cur@) == scan(
                    line@,
                    none,
                    Seq::empty(),
                ),
            invariant
                chars.obeys_prophetic_iter_laws(),
                chars.decrease() is Some,
                none == Seq::<Seq<char>>::empty(),
            ensures
                tokens@.map_values(|t: String| t@) == words(line@),
            decreases chars.decrease()->0,
        {
            let ghost found = tokens@.map_values(|t: String| t@);
            let ghost ahead = chars.remaining();
            let ghost word = cur@;
            match chars.next() {
                Some(c) => {
                    proof {
                        assert(ahead.len() > 0 && ahead[0] == c);
                        assert(chars.remaining() == ahead.drop_first());
                    }
                    if c.is_whitespace() {
                        if cur.len() > 0 {
                            tokens.push(string_of(&cur));
                            cur = Vec::new();
                            assert(tokens@.map_values(|t: String| t@) =~= found.push(word));
                        }
                        assert(cur@ =~= Seq::<char>::empty());
                    } else {
                        cur.push(c);
                    }
                },
                None => {
                    proof {
                        assert(ahead.len() == 0);
                    }
                    if cur.len() > 0 {
                        tokens.push(string_of(&cur));
                        assert(tokens@.map_values(|t: String| t@) =~= found.push(word));
                    }
                    proof {
                        lemma_scan(line@, Seq::empty());
                        assert(scan(ahead, found, word) == (if word.len() > 0 {
                            found.push(word)
                        } else {
                            found
                        }));
                    }
                    break ;
                },
            }
        }
        let ghost all = tokens@;
        let mut buffer: Vec<String> = Vec::new();
        while tokens.len() > 0
            invariant
                tokens.len() + buffer.len() == all.len(),
                forall|i: int| 0 <= i < tokens.len() ==> tokens[i] == all[i],
                forall|i: int|
                    0 <= i < buffer.len() ==> #[trigger] buffer[i] == all[all.len() - 1 - i],
            decreases tokens.len(),
        {
            let token = tokens.pop().unwrap();
            buffer.push(token);
        }
        self.buffer = buffer;
        assert(self.pending() =~= all.map_values(|t: String| t@));
    }
}

} // verus!
