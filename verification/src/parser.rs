use crate::errors::Error;
use crate::tokens::{AxesName, Lexeme, ValidToken};
use vstd::prelude::*;
use vstd::string::StrSliceExecFns;
use vstd::string::StringExecFns;

verus! {

/// A table of fixed texts with the token that each stands for.
pub type Table = Seq<(Seq<char>, Lexeme)>;

/// The structural symbols, in the order in which they are tried. A symbol
/// that begins with another one stands before it.
pub open spec fn symbols() -> Table {
    seq![
        (".."@, Lexeme::Parent),
        ("//"@, Lexeme::DoubleForwardSlash),
        ("."@, Lexeme::Period),
        ("/"@, Lexeme::ForwardSlash),
        ("["@, Lexeme::LeftBracket),
        ("]"@, Lexeme::RightBracket),
        ("("@, Lexeme::LeftParen),
        (")"@, Lexeme::RightParen),
        ("@"@, Lexeme::AtSign),
        ("::"@, Lexeme::LocationStep),
        ("="@, Lexeme::Equal),
    ]
}

/// The axis keywords, in the order in which they are tried. A keyword that
/// begins with another one stands before it.
pub open spec fn axes() -> Table {
    seq![
        ("ancestor-or-self"@, Lexeme::Axes(AxesName::AncestorOrSelf)),
        ("ancestor"@, Lexeme::Axes(AxesName::Ancestor)),
        ("attribute"@, Lexeme::Axes(AxesName::Attribute)),
        ("child"@, Lexeme::Axes(AxesName::Child)),
        ("descendant-or-self"@, Lexeme::Axes(AxesName::DescendantOrSelf)),
        ("descendant"@, Lexeme::Axes(AxesName::Descendant)),
        ("following-sibling"@, Lexeme::Axes(AxesName::FollowingSibling)),
        ("following"@, Lexeme::Axes(AxesName::Following)),
        ("namespace"@, Lexeme::Axes(AxesName::Namespace)),
        ("parent"@, Lexeme::Axes(AxesName::Parent)),
        ("preceding-sibling"@, Lexeme::Axes(AxesName::PrecedingSibling)),
        ("preceding"@, Lexeme::Axes(AxesName::Preceding)),
        ("self"@, Lexeme::Axes(AxesName::SelfAxis)),
    ]
}

/// The first entry of a table whose text `rest` begins with: its token and the length of its text.
pub open spec fn first_entry(table: Table, rest: Seq<char>) -> Option<(Lexeme, nat)>
    decreases table.len(),
{
    if table.len() == 0 {
        None
    } else if table[0].0.is_prefix_of(rest) {
        Some((table[0].1, table[0].0.len()))
    } else {
        first_entry(table.drop_first(), rest)
    }
}

/// Whether a character is an ASCII letter.
pub open spec fn is_letter(c: char) -> bool {
    ('a' <= c && c <= 'z') || ('A' <= c && c <= 'Z')
}

/// Whether a character is an ASCII digit.
pub open spec fn is_digit(c: char) -> bool {
    '0' <= c && c <= '9'
}

/// The length of the longest run of ASCII letters that `rest` begins with.
pub open spec fn letters(rest: Seq<char>) -> nat
    decreases rest.len(),
{
    if rest.len() > 0 && is_letter(rest[0]) {
        1 + letters(rest.drop_first())
    } else {
        0
    }
}

/// The length of the longest run of ASCII digits that `rest` begins with.
pub open spec fn digits(rest: Seq<char>) -> nat
    decreases rest.len(),
{
    if rest.len() > 0 && is_digit(rest[0]) {
        1 + digits(rest.drop_first())
    } else {
        0
    }
}

/// The value of a digit.
pub open spec fn digit_value(c: char) -> nat {
    (c as u32 - '0' as u32) as nat
}

/// The number that a run of digits writes in decimal.
pub open spec fn number_of(run: Seq<char>) -> nat
    decreases run.len(),
{
    if run.len() == 0 {
        0
    } else {
        number_of(run.drop_last()) * 10 + digit_value(run.last())
    }
}

/// A number as a token holds it: the largest `u64` stands for all that lie above it.
pub open spec fn clip(n: nat) -> u64 {
    if n > u64::MAX {
        u64::MAX
    } else {
        n as u64
    }
}

/// The token that `rest` begins with and the number of characters it takes,
/// if any rule applies. The rules in their order: a structural symbol, an
/// axis keyword, the longest run of letters, the longest run of digits.
pub open spec fn lex(rest: Seq<char>) -> Option<(Lexeme, nat)> {
    match first_entry(symbols(), rest) {
        Some(found) => Some(found),
        None => match first_entry(axes(), rest) {
            Some(found) => Some(found),
            None => if letters(rest) > 0 {
                Some((Lexeme::Literal(rest.take(letters(rest) as int)), letters(rest)))
            } else if digits(rest) > 0 {
                Some(
                    (
                        Lexeme::Number(clip(number_of(rest.take(digits(rest) as int)))),
                        digits(rest),
                    ),
                )
            } else {
                None
            },
        },
    }
}

/// The tokens that `rest` splits into, up to its end or to the first place
/// where no rule applies; the flag says whether the end was reached.
pub open spec fn lex_all(rest: Seq<char>) -> (Seq<Lexeme>, bool)
    decreases rest.len(),
{
    if rest.len() == 0 {
        (Seq::empty(), true)
    } else {
        match lex(rest) {
            Some((token, taken)) => if 0 < taken <= rest.len() {
                let (more, complete) = lex_all(rest.skip(taken as int));
                (seq![token] + more, complete)
            } else {
                (Seq::empty(), false)
            },
            None => (Seq::empty(), false),
        }
    }
}

/// One entry of the table of structural symbols.
fn symbol_entry(k: usize) -> (entry: (&'static str, ValidToken))
    requires
        k < 11,
    ensures
        symbols().len() == 11,
        (entry.0@, entry.1@) == symbols()[k as int],
{
    if k == 0 {
        ("..", ValidToken::Parent)
    } else if k == 1 {
        ("//", ValidToken::DoubleForwardSlash)
    } else if k == 2 {
        (".", ValidToken::Period)
    } else if k == 3 {
        ("/", ValidToken::ForwardSlash)
    } else if k == 4 {
        ("[", ValidToken::LeftBracket)
    } else if k == 5 {
        ("]", ValidToken::RightBracket)
    } else if k == 6 {
        ("(", ValidToken::LeftParen)
    } else if k == 7 {
        (")", ValidToken::RightParen)
    } else if k == 8 {
        ("@", ValidToken::AtSign)
    } else if k == 9 {
        ("::", ValidToken::LocationStep)
    } else {
        ("=", ValidToken::Equal)
    }
}

/// One entry of the table of axis keywords.
fn axis_entry(k: usize) -> (entry: (&'static str, ValidToken))
    requires
        k < 13,
    ensures
        axes().len() == 13,
        (entry.0@, entry.1@) == axes()[k as int],
{
    if k == 0 {
        ("ancestor-or-self", ValidToken::Axes(AxesName::AncestorOrSelf))
    } else if k == 1 {
        ("ancestor", ValidToken::Axes(AxesName::Ancestor))
    } else if k == 2 {
        ("attribute", ValidToken::Axes(AxesName::Attribute))
    } else if k == 3 {
        ("child", ValidToken::Axes(AxesName::Child))
    } else if k == 4 {
        ("descendant-or-self", ValidToken::Axes(AxesName::DescendantOrSelf))
    } else if k == 5 {
        ("descendant", ValidToken::Axes(AxesName::Descendant))
    } else if k == 6 {
        ("following-sibling", ValidToken::Axes(AxesName::FollowingSibling))
    } else if k == 7 {
        ("following", ValidToken::Axes(AxesName::Following))
    } else if k == 8 {
        ("namespace", ValidToken::Axes(AxesName::Namespace))
    } else if k == 9 {
        ("parent", ValidToken::Axes(AxesName::Parent))
    } else if k == 10 {
        ("preceding-sibling", ValidToken::Axes(AxesName::PrecedingSibling))
    } else if k == 11 {
        ("preceding", ValidToken::Axes(AxesName::Preceding))
    } else {
        ("self", ValidToken::Axes(AxesName::SelfAxis))
    }
}

/// Whether the characters from index `at` on begin with `text`.
fn starts_with(chars: &Vec<char>, at: usize, text: &str) -> (yes: bool)
    requires
        at <= chars@.len(),
    ensures
        yes == text@.is_prefix_of(chars@.skip(at as int)),
{
    let length = text.unicode_len();
    if length > chars.len() - at {
        return false;
    }
    let ghost rest = chars@.skip(at as int);
    let mut j: usize = 0;
    while j < length
        invariant
            j <= length,
            length == text@.len(),
            at + length <= chars@.len() <= usize::MAX,
            rest == chars@.skip(at as int),
            forall|k: int| 0 <= k < j ==> text@[k] == rest[k],
        decreases length - j,
    {
        if text.get_char(j) != chars[at + j] {
            assert(text@[j as int] != rest[j as int]);
            assert(rest.subrange(0, length as int)[j as int] == rest[j as int]);
            return false;
        }
        j += 1;
    }
    assert(text@ =~= rest.subrange(0, length as int));
    true
}

/// A lexer: a path and a cursor that moves forward through it, token by token.
pub struct Token {
    xpath: String,
    chars: Vec<char>,
    pos: usize,
}

impl Token {
    #[verifier::type_invariant]
    spec fn well_formed(self) -> bool {
        self.chars@ == self.xpath@ && self.pos <= self.chars@.len()
    }

    /// The path that is read.
    pub closed spec fn path(self) -> Seq<char> {
        self.chars@
    }

    /// The number of characters read so far.
    pub closed spec fn cursor(self) -> nat {
        self.pos as nat
    }

    /// What is left to read.
    pub open spec fn remaining(self) -> Seq<char> {
        self.path().skip(self.cursor() as int)
    }

    /// A lexer at the start of `xpath`.
    pub fn new(xpath: String) -> (lexer: Token)
        ensures
            lexer.path() == xpath@,
            lexer.cursor() == 0,
    {
        let mut chars: Vec<char> = Vec::new();
        let text = xpath.as_str();
        for c in it: text.chars()
            invariant
                it.seq() == text@,
                chars@ == it.seq().take(it.index() as int),
        {
            chars.push(c);
            assert(chars@ =~= it.seq().take(it.index() + 1));
        }
        assert(chars@ =~= xpath@);
        Token { xpath, chars, pos: 0 }
    }

    /// Whether the whole path is read.
    pub fn is_end(&self) -> (end: bool)
        ensures
            end == (self.path().len() <= self.cursor()),
            self.cursor() <= self.path().len(),
            end == (self.remaining().len() == 0),
    {
        proof {
            use_type_invariant(self);
        }
        self.chars.len() <= self.pos
    }

    /// Looks the characters at the cursor up in a table: the structural
    /// symbols, or the axis keywords if `keywords` is set.
    fn look_up(&self, keywords: bool) -> (found: Option<(usize, ValidToken)>)
        ensures
            match found {
                Some((size, token)) => first_entry(
                    if keywords {
                        axes()
                    } else {
                        symbols()
                    },
                    self.remaining(),
                ) == Some((token@, size as nat)) && size <= self.remaining().len(),
                None => first_entry(
                    if keywords {
                        axes()
                    } else {
                        symbols()
                    },
                    self.remaining(),
                ) is None,
            },
    {
        proof {
            use_type_invariant(self);
        }
        let ghost table = if keywords {
            axes()
        } else {
            symbols()
        };
        let ghost rest = self.remaining();
        let count: usize = if keywords {
            13
        } else {
            11
        };
        let mut k: usize = 0;
        assert(table.skip(0) =~= table);
        while k < count
            invariant
                k <= count,
                count == table.len(),
                table == if keywords {
                    axes()
                } else {
                    symbols()
                },
                rest == self.remaining(),
                self.pos <= self.chars@.len(),
                rest == self.chars@.skip(self.pos as int),
                first_entry(table, rest) == first_entry(table.skip(k as int), rest),
            decreases count - k,
        {
            let (text, token) = if keywords {
                axis_entry(k)
            } else {
                symbol_entry(k)
            };
            assert(table.skip(k as int)[0] == table[k as int]);
            assert(table.skip(k as int).drop_first() =~= table.skip(k + 1));
            if starts_with(&self.chars, self.pos, text) {
                return Some((text.unicode_len(), token));
            }
            k += 1;
        }
        None
    }

    /// Looks for a structural symbol at the cursor.
    fn parse_tokens(&self) -> (found: Option<(usize, ValidToken)>)
        ensures
            match found {
                Some((size, token)) => first_entry(symbols(), self.remaining()) == Some(
                    (token@, size as nat),
                ) && size <= self.remaining().len(),
                None => first_entry(symbols(), self.remaining()) is None,
            },
    {
        self.look_up(false)
    }

    /// Looks for an axis keyword at the cursor.
    fn parse_axes(&self) -> (found: Option<(usize, ValidToken)>)
        ensures
            match found {
                Some((size, token)) => first_entry(axes(), self.remaining()) == Some(
                    (token@, size as nat),
                ) && size <= self.remaining().len(),
                None => first_entry(axes(), self.remaining()) is None,
            },
    {
        self.look_up(true)
    }

    /// Looks for a run of letters at the cursor.
    fn parse_literal(&self) -> (found: Option<(usize, ValidToken)>)
        ensures
            match found {
                Some((size, token)) => size == letters(self.remaining()) && size > 0 && size
                    <= self.remaining().len() && token@ == Lexeme::Literal(
                    self.remaining().take(size as int),
                ),
                None => letters(self.remaining()) == 0,
            },
    {
        proof {
            use_type_invariant(self);
        }
        let ghost rest = self.remaining();
        let left = self.chars.len() - self.pos;
        let mut size: usize = 0;
        assert(rest.skip(0) =~= rest);
        while size < left && letter(self.chars[self.pos + size])
            invariant
                size <= left,
                left == self.chars@.len() - self.pos,
                self.chars@.len() <= usize::MAX,
                rest == self.chars@.skip(self.pos as int),
                letters(rest) == size + letters(rest.skip(size as int)),
            decreases left - size,
        {
            assert(rest.skip(size as int)[0] == self.chars@[self.pos + size]);
            assert(rest.skip(size as int).drop_first() =~= rest.skip(size + 1));
            size += 1;
        }
        assert(letters(rest.skip(size as int)) == 0) by {
            if size < left {
                assert(rest.skip(size as int)[0] == self.chars@[self.pos + size]);
            }
        }
        if size > 0 {
            let text = self.xpath.as_str().substring_char(self.pos, self.pos + size);
            assert(text@ =~= rest.take(size as int));
            Some((size, ValidToken::Literal(String::from_str(text))))
        } else {
            None
        }
    }

    /// Looks for a run of digits at the cursor.
    fn parse_number(&self) -> (found: Option<(usize, ValidToken)>)
        ensures
            match found {
                Some((size, token)) => size == digits(self.remaining()) && size > 0 && size
                    <= self.remaining().len() && token@ == Lexeme::Number(
                    clip(number_of(self.remaining().take(size as int))),
                ),
                None => digits(self.remaining()) == 0,
            },
    {
        proof {
            use_type_invariant(self);
        }
        let ghost rest = self.remaining();
        let left = self.chars.len() - self.pos;
        let mut size: usize = 0;
        let mut value: u64 = 0;
        assert(rest.skip(0) =~= rest);
        assert(rest.take(0) =~= Seq::<char>::empty());
        while size < left && digit(self.chars[self.pos + size])
            invariant
                size <= left,
                left == self.chars@.len() - self.pos,
                self.chars@.len() <= usize::MAX,
                rest == self.chars@.skip(self.pos as int),
                digits(rest) == size + digits(rest.skip(size as int)),
                value == clip(number_of(rest.take(size as int))),
            decreases left - size,
        {
            let c = self.chars[self.pos + size];
            assert(rest.skip(size as int)[0] == c);
            assert(rest.skip(size as int).drop_first() =~= rest.skip(size + 1));
            assert(rest.take(size + 1).drop_last() =~= rest.take(size as int));
            assert(rest.take(size + 1).last() == c);
            let d: u64 = (c as u32 - '0' as u32) as u64;
            if value > (u64::MAX - d) / 10 {
                value = u64::MAX;
            } else {
                value = value * 10 + d;
            }
            size += 1;
        }
        assert(digits(rest.skip(size as int)) == 0) by {
            if size < left {
                assert(rest.skip(size as int)[0] == self.chars@[self.pos + size]);
            }
        }
        if size > 0 {
            Some((size, ValidToken::Number(value)))
        } else {
            None
        }
    }

    /// Reads the token at the cursor and moves the cursor behind it. Where no
    /// rule applies, the cursor moves to the end of the path.
    pub fn next_func(&mut self) -> (token: Result<ValidToken, Error>)
        ensures
            final(self).path() == old(self).path(),
            match lex(old(self).remaining()) {
                Some((lexeme, taken)) => token is Ok && token->Ok_0@ == lexeme
                    && final(self).cursor() == old(self).cursor() + taken,
                None => token is Err && token->Err_0 == Error::Token && final(self).cursor()
                    == final(self).path().len(),
            },
    {
        proof {
            use_type_invariant(&*self);
        }
        let found = match self.parse_tokens() {
            Some(found) => Some(found),
            None => match self.parse_axes() {
                Some(found) => Some(found),
                None => match self.parse_literal() {
                    Some(found) => Some(found),
                    None => self.parse_number(),
                },
            },
        };
        match found {
            Some((size, token)) => {
                assert(self.pos + size <= self.chars.len());
                self.pos = self.pos + size;
                Ok(token)
            },
            None => {
                self.pos = self.chars.len();
                Err(Error::Token)
            },
        }
    }

    /// Reads the next token, if the path has one more.
    pub fn next(&mut self) -> (token: Option<ValidToken>)
        ensures
            final(self).path() == old(self).path(),
            match lex(old(self).remaining()) {
                Some((lexeme, taken)) => token is Some && token->0@ == lexeme
                    && final(self).cursor() == old(self).cursor() + taken,
                None => token is None && final(self).cursor() == final(self).path().len(),
            },
    {
        if self.is_end() {
            proof {
                lemma_nothing_at_end();
                assert(self.remaining() =~= Seq::<char>::empty());
            }
            None
        } else {
            match self.next_func() {
                Ok(token) => Some(token),
                Err(_) => None,
            }
        }
    }
}

/// Whether a character is an ASCII letter.
fn letter(c: char) -> (yes: bool)
    ensures
        yes == is_letter(c),
{
    (c >= 'a' && c <= 'z') || (c >= 'A' && c <= 'Z')
}

/// Whether a character is an ASCII digit.
fn digit(c: char) -> (yes: bool)
    ensures
        yes == is_digit(c),
{
    c >= '0' && c <= '9'
}

/// No entry of a table whose texts are not empty begins the empty text.
proof fn lemma_no_entry(table: Table)
    requires
        forall|k: int| 0 <= k < table.len() ==> (#[trigger] table[k]).0.len() > 0,
    ensures
        first_entry(table, Seq::empty()) is None,
    decreases table.len(),
{
    if table.len() > 0 {
        assert(table[0].0.len() > 0);
        assert forall|k: int| 0 <= k < table.drop_first().len() implies (#[trigger] table.drop_first()[k]).0.len()
            > 0 by {
            assert(table.drop_first()[k] == table[k + 1]);
        }
        lemma_no_entry(table.drop_first());
    }
}

/// The texts of both tables are not empty.
pub proof fn lemma_tables()
    ensures
        forall|k: int| 0 <= k < symbols().len() ==> (#[trigger] symbols()[k]).0.len() > 0,
        forall|k: int| 0 <= k < axes().len() ==> (#[trigger] axes()[k]).0.len() > 0,
{
    lemma_texts();
}

/// The texts of both tables, character by character.
proof fn lemma_texts()
    ensures
        symbols().len() == 11,
        symbols()[0].0 =~= seq!['.', '.'],
        symbols()[1].0 =~= seq!['/', '/'],
        symbols()[2].0 =~= seq!['.'],
        symbols()[3].0 =~= seq!['/'],
        symbols()[4].0 =~= seq!['['],
        symbols()[5].0 =~= seq![']'],
        symbols()[6].0 =~= seq!['('],
        symbols()[7].0 =~= seq![')'],
        symbols()[8].0 =~= seq!['@'],
        symbols()[9].0 =~= seq![':', ':'],
        symbols()[10].0 =~= seq!['='],
        axes().len() == 13,
        forall|k: int| 0 <= k < axes().len() ==> (#[trigger] axes()[k]).0.len() >= 4,
        axes()[0].0.subrange(0, 3) =~= seq!['a', 'n', 'c'] && axes()[0].0.len() == 16,
        axes()[1].0.subrange(0, 3) =~= seq!['a', 'n', 'c'] && axes()[1].0.len() == 8,
        axes()[2].0.subrange(0, 3) =~= seq!['a', 't', 't'],
        axes()[3].0.subrange(0, 3) =~= seq!['c', 'h', 'i'],
        axes()[4].0.subrange(0, 3) =~= seq!['d', 'e', 's'] && axes()[4].0.len() == 18,
        axes()[5].0.subrange(0, 3) =~= seq!['d', 'e', 's'] && axes()[5].0.len() == 10,
        axes()[6].0.subrange(0, 3) =~= seq!['f', 'o', 'l'] && axes()[6].0.len() == 17,
        axes()[7].0.subrange(0, 3) =~= seq!['f', 'o', 'l'] && axes()[7].0.len() == 9,
        axes()[8].0.subrange(0, 3) =~= seq!['n', 'a', 'm'],
        axes()[9].0.subrange(0, 3) =~= seq!['p', 'a', 'r'],
        axes()[10].0.subrange(0, 3) =~= seq!['p', 'r', 'e'] && axes()[10].0.len() == 17,
        axes()[11].0.subrange(0, 3) =~= seq!['p', 'r', 'e'] && axes()[11].0.len() == 9,
        axes()[12].0.subrange(0, 3) =~= seq!['s', 'e', 'l'],
{
    reveal_strlit("..");
    reveal_strlit("//");
    reveal_strlit(".");
    reveal_strlit("/");
    reveal_strlit("[");
    reveal_strlit("]");
    reveal_strlit("(");
    reveal_strlit(")");
    reveal_strlit("@");
    reveal_strlit("::");
    reveal_strlit("=");
    reveal_strlit("ancestor-or-self");
    reveal_strlit("ancestor");
    reveal_strlit("attribute");
    reveal_strlit("child");
    reveal_strlit("descendant-or-self");
    reveal_strlit("descendant");
    reveal_strlit("following-sibling");
    reveal_strlit("following");
    reveal_strlit("namespace");
    reveal_strlit("parent");
    reveal_strlit("preceding-sibling");
    reveal_strlit("preceding");
    reveal_strlit("self");
}

/// An entry that a table finds has a text that `rest` begins with.
proof fn lemma_entry_takes(table: Table, rest: Seq<char>)
    requires
        forall|k: int| 0 <= k < table.len() ==> (#[trigger] table[k]).0.len() > 0,
    ensures
        match first_entry(table, rest) {
            Some((_, size)) => 0 < size <= rest.len(),
            None => true,
        },
    decreases table.len(),
{
    if table.len() > 0 {
        assert(table[0].0.len() > 0);
        if !table[0].0.is_prefix_of(rest) {
            assert forall|k: int| 0 <= k < table.drop_first().len() implies (
            #[trigger] table.drop_first()[k]).0.len() > 0 by {
                assert(table.drop_first()[k] == table[k + 1]);
            }
            lemma_entry_takes(table.drop_first(), rest);
        }
    }
}

/// A literal is the longest run of letters: it holds letters only, and what follows it is no letter.
pub proof fn lemma_letters_longest(rest: Seq<char>)
    ensures
        letters(rest) <= rest.len(),
        forall|i: int| 0 <= i < letters(rest) ==> is_letter(#[trigger] rest[i]),
        letters(rest) < rest.len() ==> !is_letter(rest[letters(rest) as int]),
    decreases rest.len(),
{
    if rest.len() > 0 && is_letter(rest[0]) {
        let tail = rest.drop_first();
        lemma_letters_longest(tail);
        assert forall|i: int| 0 <= i < letters(rest) implies is_letter(#[trigger] rest[i]) by {
            if i > 0 {
                assert(rest[i] == tail[i - 1]);
            }
        }
        if letters(rest) < rest.len() {
            assert(rest[letters(rest) as int] == tail[letters(tail) as int]);
        }
    }
}

/// A number is the longest run of digits: it holds digits only, and what follows it is no digit.
pub proof fn lemma_digits_longest(rest: Seq<char>)
    ensures
        digits(rest) <= rest.len(),
        forall|i: int| 0 <= i < digits(rest) ==> is_digit(#[trigger] rest[i]),
        digits(rest) < rest.len() ==> !is_digit(rest[digits(rest) as int]),
    decreases rest.len(),
{
    if rest.len() > 0 && is_digit(rest[0]) {
        let tail = rest.drop_first();
        lemma_digits_longest(tail);
        assert forall|i: int| 0 <= i < digits(rest) implies is_digit(#[trigger] rest[i]) by {
            if i > 0 {
                assert(rest[i] == tail[i - 1]);
            }
        }
        if digits(rest) < rest.len() {
            assert(rest[digits(rest) as int] == tail[digits(tail) as int]);
        }
    }
}

/// Every token takes at least one character, and no more than are left.
pub proof fn lemma_lex_takes(rest: Seq<char>)
    ensures
        match lex(rest) {
            Some((_, size)) => 0 < size <= rest.len(),
            None => true,
        },
{
    lemma_tables();
    lemma_entry_takes(symbols(), rest);
    lemma_entry_takes(axes(), rest);
    lemma_letters_longest(rest);
    lemma_digits_longest(rest);
}

/// Reading is a matter of what is left to read alone: two lexers with the
/// same rest read the same token and take the same number of characters.
pub proof fn lemma_same_rest_same_token(one: Token, other: Token)
    requires
        one.remaining() == other.remaining(),
    ensures
        lex(one.remaining()) == lex(other.remaining()),
{
}

/// Whether, in a table, a text that begins with another text of the table stands before it.
pub open spec fn longer_first(table: Table) -> bool {
    forall|i: int, j: int|
        0 <= i < table.len() && 0 <= j < table.len() && i != j && (#[trigger] table[j]).0.is_prefix_of(
            (#[trigger] table[i]).0,
        ) ==> i < j
}

/// In both tables the longer of two texts with the same beginning stands
/// first, so that the shorter one never takes its place.
pub proof fn lemma_tables_order()
    ensures
        longer_first(symbols()),
        longer_first(axes()),
{
    lemma_texts();
    assert(longer_first(symbols())) by {
        assert forall|i: int, j: int|
            0 <= i < symbols().len() && 0 <= j < symbols().len() && i != j && (
            #[trigger] symbols()[j]).0.is_prefix_of((#[trigger] symbols()[i]).0) implies i < j by {
            let long = symbols()[i].0;
            let short = symbols()[j].0;
            assert(short =~= long.subrange(0, short.len() as int));
            assert(short[0] == long[0]);
        }
    }
    assert(longer_first(axes())) by {
        assert forall|i: int, j: int|
            0 <= i < axes().len() && 0 <= j < axes().len() && i != j && (
            #[trigger] axes()[j]).0.is_prefix_of((#[trigger] axes()[i]).0) implies i < j by {
            let long = axes()[i].0;
            let short = axes()[j].0;
            assert(short =~= long.subrange(0, short.len() as int));
            assert(short[0] == long[0]);
            assert(short[1] == long[1]);
            assert(short[2] == long[2]);
        }
    }
}

/// At the end of a path no rule applies.
pub proof fn lemma_nothing_at_end()
    ensures
        lex(Seq::empty()) is None,
{
    lemma_tables();
    lemma_no_entry(symbols());
    lemma_no_entry(axes());
}

} // verus!
