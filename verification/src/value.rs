//! The values a store holds, their mathematical model, and the text each
//! value is written as.

use vstd::prelude::*;
use vstd::string::StringExecFns;
use crate::decimal::{decimal, lemma_decimal, parse_number, parse_usize, push_decimal};
use crate::text::{string_of, to_chars};

verus! {

/// The model of a stored value: what a `KvEnum` stands for in contracts.
pub enum Scalar {
    Int(nat),
    Str(Seq<char>),
    Bool(bool),
}

impl Scalar {
    /// A `KvEnum` can hold this value: a whole number has to fit `usize`.
    pub open spec fn representable(self) -> bool {
        self matches Scalar::Int(n) ==> n <= usize::MAX
    }
}

/// A stored value: a whole number, a piece of text or a truth value.
#[derive(Debug, PartialEq)]
pub enum KvEnum {
    Int(usize),
    Str(String),
    Bool(bool),
}

impl View for KvEnum {
    type V = Scalar;

    open spec fn view(&self) -> Scalar {
        match self {
            KvEnum::Int(n) => Scalar::Int(*n as nat),
            KvEnum::Str(s) => Scalar::Str(s@),
            KvEnum::Bool(b) => Scalar::Bool(*b),
        }
    }
}

impl Clone for KvEnum {
    fn clone(&self) -> (copy: Self)
        ensures
            copy == *self,
    {
        match self {
            KvEnum::Int(n) => KvEnum::Int(*n),
            KvEnum::Str(s) => KvEnum::Str(s.clone()),
            KvEnum::Bool(b) => KvEnum::Bool(*b),
        }
    }
}

/// The four characters of the word `true`.
pub open spec fn word_true() -> Seq<char> {
    seq!['t', 'r', 'u', 'e']
}

/// The five characters of the word `false`.
pub open spec fn word_false() -> Seq<char> {
    seq!['f', 'a', 'l', 's', 'e']
}

/// The value that a raw text stands for. The words `true` and `false` are
/// truth values; a numeral that fits `usize` is a whole number; every other
/// text stands for itself.
pub open spec fn parse_value(raw: Seq<char>) -> Scalar {
    if raw == word_true() {
        Scalar::Bool(true)
    } else if raw == word_false() {
        Scalar::Bool(false)
    } else {
        match parse_number(raw) {
            Some(n) if n <= usize::MAX => Scalar::Int(n),
            _ => Scalar::Str(raw),
        }
    }
}

/// The raw text that a value is written as.
pub open spec fn raw_text(value: Scalar) -> Seq<char> {
    match value {
        Scalar::Int(n) => decimal(n),
        Scalar::Str(s) => s,
        Scalar::Bool(b) => if b {
            word_true()
        } else {
            word_false()
        },
    }
}

/// A whole number or a truth value is read back from its raw text as itself,
/// and that text is free of every character but letters and digits.
pub proof fn lemma_raw_text_reads_back(value: Scalar)
    requires
        value.representable(),
        !(value is Str),
    ensures
        parse_value(raw_text(value)) == value,
        forall|i: int|
            0 <= i < raw_text(value).len() ==> {
                let c = #[trigger] raw_text(value)[i];
                ('0' <= c && c <= '9') || ('a' <= c && c <= 'z')
            },
{
    match value {
        Scalar::Int(n) => {
            lemma_decimal(n);
            let raw = decimal(n);
            assert(raw[0] != 't' && raw[0] != 'f');
            assert(word_true()[0] == 't' && word_false()[0] == 'f');
        },
        Scalar::Str(_) => {},
        Scalar::Bool(b) => {
            assert(word_true()[0] == 't' && word_false()[0] == 'f');
        },
    }
}

impl KvEnum {
    /// Reads `chars[from..to]` as a raw value.
    pub(crate) fn from_chars(chars: &Vec<char>, from: usize, to: usize) -> (value: KvEnum)
        requires
            from <= to <= chars.len(),
        ensures
            value@ == parse_value(chars@.subrange(from as int, to as int)),
    {
        let ghost raw = chars@.subrange(from as int, to as int);
        let n: usize = to - from;
        if n == 4 && chars[from] == 't' && chars[from + 1] == 'r' && chars[from + 2] == 'u'
            && chars[from + 3] == 'e' {
            assert(raw =~= word_true());
            return KvEnum::Bool(true);
        }
        if n == 5 && chars[from] == 'f' && chars[from + 1] == 'a' && chars[from + 2] == 'l'
            && chars[from + 3] == 's' && chars[from + 4] == 'e' {
            assert(raw =~= word_false());
            return KvEnum::Bool(false);
        }
        proof {
            if raw == word_true() {
                assert(raw[0] == 't' && raw[1] == 'r' && raw[2] == 'u' && raw[3] == 'e');
            }
            if raw == word_false() {
                assert(raw[0] == 'f' && raw[1] == 'a' && raw[2] == 'l' && raw[3] == 's' && raw[4]
                    == 'e');
            }
        }
        match parse_usize(chars, from, to) {
            Some(number) => KvEnum::Int(number),
            None => KvEnum::Str(string_of(chars, from, to)),
        }
    }

    /// Reads a raw text as a value.
    pub fn from_text(raw: &str) -> (value: KvEnum)
        ensures
            value@ == parse_value(raw@),
    {
        let chars = to_chars(raw);
        assert(chars@.subrange(0, chars@.len() as int) == chars@);
        KvEnum::from_chars(&chars, 0, chars.len())
    }

    /// Appends the raw text of the value to `out`.
    pub fn push_text(&self, out: &mut String)
        ensures
            final(out)@ == old(out)@ + raw_text(self@),
    {
        match self {
            KvEnum::Int(n) => push_decimal(out, *n),
            KvEnum::Str(s) => out.append(s.as_str()),
            KvEnum::Bool(true) => {
                proof {
                    reveal_strlit("true");
                }
                assert("true"@ =~= word_true());
                out.append("true");
            },
            KvEnum::Bool(false) => {
                proof {
                    reveal_strlit("false");
                }
                assert("false"@ =~= word_false());
                out.append("false");
            },
        }
    }

    /// The raw text of the value.
    pub fn to_text(&self) -> (raw: String)
        ensures
            raw@ == raw_text(self@),
    {
        let mut raw = String::new();
        self.push_text(&mut raw);
        raw
    }
}

} // verus!
