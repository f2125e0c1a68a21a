//! The command line that a project keeps under a name, split into the
//! program and its arguments.

use crate::text::{chars_of, is_white_space, texts_of, white_space};
use vstd::prelude::*;
use vstd::string::StrSliceExecFns;

verus! {

/// The word `current`, if it has any character, as a sequence of one word.
pub open spec fn finished_word(current: Seq<char>) -> Seq<Seq<char>> {
    if current.len() > 0 {
        seq![current]
    } else {
        Seq::empty()
    }
}

/// The words of `rest`, read after the characters `current` of a word that
/// has begun: white space ends the word, anything else goes on with it.
pub open spec fn words_after(rest: Seq<char>, current: Seq<char>) -> Seq<Seq<char>>
    decreases rest.len(),
{
    if rest.len() == 0 {
        finished_word(current)
    } else if is_white_space(rest.first()) {
        finished_word(current) + words_after(rest.drop_first(), Seq::empty())
    } else {
        words_after(rest.drop_first(), current.push(rest.first()))
    }
}

/// The words of a text: its runs of characters that are not white space, in
/// order.
pub open spec fn words(text: Seq<char>) -> Seq<Seq<char>> {
    words_after(text, Seq::empty())
}

/// Splits a command line into its words, at white space of any length.
pub fn command_words<'a>(cmd: &'a str) -> (tokens: Vec<&'a str>)
    ensures
        texts_of(tokens@) == words(cmd@),
{
    let chars = chars_of(cmd);
    let ghost s = chars@;
    let len = chars.len();
    let mut tokens: Vec<&'a str> = Vec::new();
    let mut start: usize = 0;
    let mut i: usize = 0;
    assert(s.skip(0) =~= s);
    assert(s.subrange(0, 0) =~= Seq::<char>::empty());
    assert(texts_of(tokens@) =~= Seq::<Seq<char>>::empty());
    while i < len
        invariant
            chars@ == s,
            cmd@ == s,
            len == s.len(),
            start <= i <= len,
            forall|k: int| start <= k < i ==> !is_white_space(s[k]),
            words(s) == texts_of(tokens@) + words_after(
                s.skip(i as int),
                s.subrange(start as int, i as int),
            ),
        decreases len - i,
    {
        let ghost rest = s.skip(i as int);
        let ghost current = s.subrange(start as int, i as int);
        let ghost found = texts_of(tokens@);
        assert(rest.drop_first() =~= s.skip(i + 1));
        assert(rest.first() == s[i as int]);
        if white_space(chars[i]) {
            if start < i {
                let token = cmd.substring_char(start, i);
                tokens.push(token);
                assert(texts_of(tokens@) =~= found + finished_word(current));
            }
            start = i + 1;
            assert(s.subrange(start as int, i + 1) =~= Seq::<char>::empty());
            assert(found + (finished_word(current) + words_after(
                rest.drop_first(),
                Seq::empty(),
            )) =~= (found + finished_word(current)) + words_after(
                rest.drop_first(),
                Seq::empty(),
            ));
        } else {
            assert(s.subrange(start as int, i + 1) =~= current.push(s[i as int]));
        }
        i += 1;
    }
    let ghost found = texts_of(tokens@);
    let ghost current = s.subrange(start as int, len as int);
    assert(s.skip(len as int).len() == 0);
    if start < len {
        let token = cmd.substring_char(start, len);
        tokens.push(token);
        assert(texts_of(tokens@) =~= found + finished_word(current));
    } else {
        assert(found + finished_word(current) =~= found);
    }
    tokens
}

/// Splits a command line into the program to run, its first word, and the
/// arguments to hand to it, the words that follow. The command line has to
/// hold a word.
pub fn prepare_command_for_execution<'a>(cmd: &'a str) -> (prepared: (&'a str, Vec<&'a str>))
    requires
        words(cmd@).len() > 0,
    ensures
        prepared.0@ == words(cmd@)[0],
        texts_of(prepared.1@) == words(cmd@).skip(1),
{
    let mut cmd_parts = command_words(cmd);
    let ghost all = texts_of(cmd_parts@);
    assert(cmd_parts@.len() == all.len());
    let command = cmd_parts.remove(0);
    assert(command@ == all[0]);
    assert(texts_of(cmd_parts@) =~= all.skip(1));
    (command, cmd_parts)
}

} // verus!
