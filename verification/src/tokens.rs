use vstd::prelude::*;
use vstd::string::StringExecFns;

verus! {

/// The thirteen axis names of the path language.
#[derive(Debug, Clone, Copy, PartialEq, Eq, Structural)]
pub enum AxesName {
    Ancestor,
    AncestorOrSelf,
    Attribute,
    Child,
    Descendant,
    DescendantOrSelf,
    Following,
    FollowingSibling,
    Namespace,
    Parent,
    Preceding,
    PrecedingSibling,
    SelfAxis,
}

impl AxesName {
    /// The name under which an axis is shown.
    pub open spec fn name_text(self) -> Seq<char> {
        match self {
            AxesName::Ancestor => "Ancestor"@,
            AxesName::AncestorOrSelf => "AncestorOrSelf"@,
            AxesName::Attribute => "Attribute"@,
            AxesName::Child => "Child"@,
            AxesName::Descendant => "Descendant"@,
            AxesName::DescendantOrSelf => "DescendantOrSelf"@,
            AxesName::Following => "Following"@,
            AxesName::FollowingSibling => "FollowingSibling"@,
            AxesName::Namespace => "Namespace"@,
            AxesName::Parent => "Parent"@,
            AxesName::Preceding => "Preceding"@,
            AxesName::PrecedingSibling => "PrecedingSibling"@,
            AxesName::SelfAxis => "SelfAxis"@,
        }
    }

    pub fn name(&self) -> (text: String)
        ensures
            text@ == self.name_text(),
    {
        match self {
            AxesName::Ancestor => String::from_str("Ancestor"),
            AxesName::AncestorOrSelf => String::from_str("AncestorOrSelf"),
            AxesName::Attribute => String::from_str("Attribute"),
            AxesName::Child => String::from_str("Child"),
            AxesName::Descendant => String::from_str("Descendant"),
            AxesName::DescendantOrSelf => String::from_str("DescendantOrSelf"),
            AxesName::Following => String::from_str("Following"),
            AxesName::FollowingSibling => String::from_str("FollowingSibling"),
            AxesName::Namespace => String::from_str("Namespace"),
            AxesName::Parent => String::from_str("Parent"),
            AxesName::Preceding => String::from_str("Preceding"),
            AxesName::PrecedingSibling => String::from_str("PrecedingSibling"),
            AxesName::SelfAxis => String::from_str("SelfAxis"),
        }
    }
}

/// One token of a path.
#[derive(Debug, PartialEq, Eq)]
pub enum ValidToken {
    /// `..`
    Parent,
    /// `//`
    DoubleForwardSlash,
    /// `.`
    Period,
    /// `/`
    ForwardSlash,
    /// `[`
    LeftBracket,
    /// `]`
    RightBracket,
    /// `(`
    LeftParen,
    /// `)`
    RightParen,
    /// `=`
    Equal,
    /// `@`
    AtSign,
    /// `::`
    LocationStep,
    /// A run of letters.
    Literal(String),
    /// A run of digits, as its value.
    Number(u64),
    /// An axis keyword.
    Axes(AxesName),
}

/// A token as a mathematical value: the view of [`ValidToken`].
pub ghost enum Lexeme {
    Parent,
    DoubleForwardSlash,
    Period,
    ForwardSlash,
    LeftBracket,
    RightBracket,
    LeftParen,
    RightParen,
    Equal,
    AtSign,
    LocationStep,
    Literal(Seq<char>),
    Number(u64),
    Axes(AxesName),
}

impl View for ValidToken {
    type V = Lexeme;

    open spec fn view(&self) -> Lexeme {
        match self {
            ValidToken::Parent => Lexeme::Parent,
            ValidToken::DoubleForwardSlash => Lexeme::DoubleForwardSlash,
            ValidToken::Period => Lexeme::Period,
            ValidToken::ForwardSlash => Lexeme::ForwardSlash,
            ValidToken::LeftBracket => Lexeme::LeftBracket,
            ValidToken::RightBracket => Lexeme::RightBracket,
            ValidToken::LeftParen => Lexeme::LeftParen,
            ValidToken::RightParen => Lexeme::RightParen,
            ValidToken::Equal => Lexeme::Equal,
            ValidToken::AtSign => Lexeme::AtSign,
            ValidToken::LocationStep => Lexeme::LocationStep,
            ValidToken::Literal(text) => Lexeme::Literal(text@),
            ValidToken::Number(value) => Lexeme::Number(*value),
            ValidToken::Axes(axis) => Lexeme::Axes(*axis),
        }
    }
}

/// The views of a run of tokens, in order.
pub open spec fn lexemes(tokens: Seq<ValidToken>) -> Seq<Lexeme> {
    tokens.map_values(|t: ValidToken| t@)
}

/// The character for a digit below ten.
pub open spec fn digit_char(d: nat) -> char {
    if d == 0 {
        '0'
    } else if d == 1 {
        '1'
    } else if d == 2 {
        '2'
    } else if d == 3 {
        '3'
    } else if d == 4 {
        '4'
    } else if d == 5 {
        '5'
    } else if d == 6 {
        '6'
    } else if d == 7 {
        '7'
    } else if d == 8 {
        '8'
    } else {
        '9'
    }
}

/// A number written in decimal, without leading zeros.
pub open spec fn decimal_text(n: nat) -> Seq<char>
    decreases n,
{
    if n < 10 {
        seq![digit_char(n)]
    } else {
        decimal_text(n / 10).push(digit_char(n % 10))
    }
}

fn digit_str(d: u64) -> (text: &'static str)
    requires
        d < 10,
    ensures
        text@ == seq![digit_char(d as nat)],
{
    proof {
        reveal_strlit("0");
        reveal_strlit("1");
        reveal_strlit("2");
        reveal_strlit("3");
        reveal_strlit("4");
        reveal_strlit("5");
        reveal_strlit("6");
        reveal_strlit("7");
        reveal_strlit("8");
        reveal_strlit("9");
    }
    let text = if d == 0 {
        "0"
    } else if d == 1 {
        "1"
    } else if d == 2 {
        "2"
    } else if d == 3 {
        "3"
    } else if d == 4 {
        "4"
    } else if d == 5 {
        "5"
    } else if d == 6 {
        "6"
    } else if d == 7 {
        "7"
    } else if d == 8 {
        "8"
    } else {
        "9"
    };
    assert(text@ =~= seq![digit_char(d as nat)]);
    text
}

/// Writes a number in decimal.
pub fn render_number(n: u64) -> (text: String)
    ensures
        text@ == decimal_text(n as nat),
    decreases n,
{
    if n < 10 {
        String::from_str(digit_str(n))
    } else {
        let head = render_number(n / 10);
        let text = head.concat(digit_str(n % 10));
        assert(text@ =~= decimal_text(n as nat));
        text
    }
}

impl Lexeme {
    /// The text under which a token is shown.
    pub open spec fn text(self) -> Seq<char> {
        match self {
            Lexeme::Parent => ".."@,
            Lexeme::DoubleForwardSlash => "//"@,
            Lexeme::Period => "."@,
            Lexeme::ForwardSlash => "/"@,
            Lexeme::LeftBracket => "["@,
            Lexeme::RightBracket => "]"@,
            Lexeme::LeftParen => "("@,
            Lexeme::RightParen => ")"@,
            Lexeme::Equal => "="@,
            Lexeme::AtSign => "@"@,
            Lexeme::LocationStep => "::"@,
            Lexeme::Literal(text) => text,
            Lexeme::Number(value) => decimal_text(value as nat),
            Lexeme::Axes(axis) => axis.name_text(),
        }
    }
}

impl ValidToken {
    pub fn text(&self) -> (text: String)
        ensures
            text@ == self@.text(),
    {
        match self {
            ValidToken::Parent => String::from_str(".."),
            ValidToken::DoubleForwardSlash => String::from_str("//"),
            ValidToken::Period => String::from_str("."),
            ValidToken::ForwardSlash => String::from_str("/"),
            ValidToken::LeftBracket => String::from_str("["),
            ValidToken::RightBracket => String::from_str("]"),
            ValidToken::LeftParen => String::from_str("("),
            ValidToken::RightParen => String::from_str(")"),
            ValidToken::Equal => String::from_str("="),
            ValidToken::AtSign => String::from_str("@"),
            ValidToken::LocationStep => String::from_str("::"),
            ValidToken::Literal(text) => text.clone(),
            ValidToken::Number(value) => render_number(*value),
            ValidToken::Axes(axis) => axis.name(),
        }
    }
}

impl Clone for ValidToken {
    fn clone(&self) -> (copy: ValidToken)
        ensures
            copy@ == self@,
    {
        match self {
            ValidToken::Parent => ValidToken::Parent,
            ValidToken::DoubleForwardSlash => ValidToken::DoubleForwardSlash,
            ValidToken::Period => ValidToken::Period,
            ValidToken::ForwardSlash => ValidToken::ForwardSlash,
            ValidToken::LeftBracket => ValidToken::LeftBracket,
            ValidToken::RightBracket => ValidToken::RightBracket,
            ValidToken::LeftParen => ValidToken::LeftParen,
            ValidToken::RightParen => ValidToken::RightParen,
            ValidToken::Equal => ValidToken::Equal,
            ValidToken::AtSign => ValidToken::AtSign,
            ValidToken::LocationStep => ValidToken::LocationStep,
            ValidToken::Literal(text) => ValidToken::Literal(text.clone()),
            ValidToken::Number(value) => ValidToken::Number(*value),
            ValidToken::Axes(axis) => ValidToken::Axes(*axis),
        }
    }
}

} // verus!
