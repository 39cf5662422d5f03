use vstd::prelude::*;
use vstd::string::*;
use crate::text::{split_words, texts, words_of};

verus! {

/// A stream of words that is read from left to right, one word at a time.
pub struct Chunks {
    words: Vec<String>,
    next: usize,
}

impl View for Chunks {
    type V = Seq<Seq<char>>;

    /// The words that have not been read yet.
    closed spec fn view(&self) -> Seq<Seq<char>> {
        if self.next <= self.words.len() {
            texts(self.words@).skip(self.next as int)
        } else {
            Seq::empty()
        }
    }
}

/// The first of some words, if there is one.
pub open spec fn first_of(t: Seq<Seq<char>>) -> Option<Seq<char>> {
    if t.len() > 0 {
        Some(t[0])
    } else {
        None
    }
}

/// The words after the first; no words where there is none.
pub open spec fn after_first(t: Seq<Seq<char>>) -> Seq<Seq<char>> {
    if t.len() > 0 {
        t.skip(1)
    } else {
        t
    }
}

impl Chunks {
    /// The stream of the words of a line.
    pub fn new(line: &str) -> (c: Chunks)
        ensures
            c@ == split_words(line@),
    {
        let words = words_of(line);
        assert(texts(words@).skip(0) =~= texts(words@));
        Chunks { words, next: 0 }
    }

    /// The stream of the given words.
    pub fn from_words(words: Vec<String>) -> (c: Chunks)
        ensures
            c@ == texts(words@),
    {
        assert(texts(words@).skip(0) =~= texts(words@));
        Chunks { words, next: 0 }
    }

    /// How many words are left.
    pub fn remaining(&self) -> (n: usize)
        ensures
            n == self@.len(),
    {
        if self.next <= self.words.len() {
            self.words.len() - self.next
        } else {
            0
        }
    }

    /// Takes the next word off the stream.
    pub fn next(&mut self) -> (w: Option<String>)
        ensures
            match w {
                Some(s) => Some(s@) == first_of(old(self)@),
                None => first_of(old(self)@) is None,
            },
            final(self)@ == after_first(old(self)@),
    {
        if self.next < self.words.len() {
            let word = self.words[self.next].clone();
            self.next = self.next + 1;
            assert(final(self)@ =~= old(self)@.skip(1));
            Some(word)
        } else {
            assert(old(self)@.len() == 0);
            None
        }
    }
}

} // verus!
