use crate::element::{Element, Node};
use crate::errors::XmlErrors;
use crate::position::{node_at, Hit, Path};
use crate::search::{children_of, first_tagged_in};
use crate::walk::{every_child, first_index};
use vstd::prelude::*;
use vstd::string::StrSliceExecFns;
use vstd::string::StringExecFns;

verus! {

/// The parts of a text between the occurrences of a separator, in order. A
/// text without the separator is its own single part.
pub open spec fn split(text: Seq<char>, separator: char) -> Seq<Seq<char>>
    decreases text.len(),
{
    if text.len() == 0 {
        seq![Seq::<char>::empty()]
    } else {
        let before = split(text.drop_last(), separator);
        if text.last() == separator {
            before.push(Seq::empty())
        } else {
            before.drop_last().push(before.last().push(text.last()))
        }
    }
}

/// The place reached from the root by going, for each name in turn, to the
/// first child that carries it; nothing if a step finds no such child.
pub open spec fn follow(root: Node, names: Seq<Seq<char>>) -> Option<Path>
    decreases names.len(),
{
    if names.len() == 0 {
        Some(Seq::empty())
    } else {
        match follow(root, names.drop_last()) {
            Some(place) => first_tagged_in(root, children_of(root, place), names.last()),
            None => None,
        }
    }
}

/// Once a step finds no child, no longer run of names leads anywhere.
pub proof fn lemma_follow_lost(root: Node, names: Seq<Seq<char>>, n: int)
    requires
        0 <= n <= names.len(),
        follow(root, names.take(n)) is None,
    ensures
        follow(root, names) is None,
    decreases names.len() - n,
{
    if n < names.len() {
        assert(names.take(n + 1).drop_last() =~= names.take(n));
        lemma_follow_lost(root, names, n + 1);
    } else {
        assert(names.take(n) =~= names);
    }
}

/// The texts of a run of strings, in order.
pub open spec fn texts(names: Seq<String>) -> Seq<Seq<char>> {
    names.map_values(|name: String| name@)
}

/// Splits a text at each occurrence of a separator.
pub fn split_text(text: &str, separator: char) -> (parts: Vec<String>)
    ensures
        texts(parts@) == split(text@, separator),
{
    let mut parts: Vec<String> = Vec::new();
    let mut start: usize = 0;
    let mut i: usize = 0;
    let length = text.unicode_len();
    assert(text@.take(0) =~= Seq::<char>::empty());
    assert(texts(parts@).push(text@.subrange(0, 0)) =~= split(text@.take(0), separator));
    while i < length
        invariant
            start <= i <= length,
            length == text@.len(),
            texts(parts@).push(text@.subrange(start as int, i as int)) == split(
                text@.take(i as int),
                separator,
            ),
        decreases length - i,
    {
        let ghost before = split(text@.take(i as int), separator);
        assert(text@.take(i + 1).drop_last() =~= text@.take(i as int));
        assert(text@.take(i + 1).last() == text@[i as int]);
        if text.get_char(i) == separator {
            let part = String::from_str(text.substring_char(start, i));
            let ghost old_parts = parts@;
            parts.push(part);
            assert(texts(parts@) =~= texts(old_parts).push(part@));
            start = i + 1;
            assert(text@.subrange(start as int, i + 1) =~= Seq::<char>::empty());
        } else {
            assert(before.drop_last() =~= texts(parts@));
            assert(text@.subrange(start as int, i + 1) =~= text@.subrange(
                start as int,
                i as int,
            ).push(text@[i as int]));
        }
        i += 1;
    }
    assert(text@.take(length as int) =~= text@);
    let last = String::from_str(text.substring_char(start, length));
    let ghost old_parts = parts@;
    parts.push(last);
    assert(texts(parts@) =~= texts(old_parts).push(last@));
    parts
}

/// What a lookup returns for a value read from an element's text: the value,
/// or the text as one that cannot be read.
pub fn value_or_error<T, E>(text: &String, parsed: Result<T, E>) -> (out: Result<Option<T>, XmlErrors>)
    ensures
        match parsed {
            Ok(value) => out == Ok::<Option<T>, XmlErrors>(Some(value)),
            Err(_) => out is Err && out->Err_0 is ValueFromStr && out->Err_0->ValueFromStr_t@
                == text@,
        },
{
    match parsed {
        Ok(value) => Ok(Some(value)),
        Err(_) => Err(XmlErrors::ValueFromStr { t: text.clone() }),
    }
}

/// Whether `out` is what a lookup returns for the text `text` read by `parse`:
/// a value that `parse` may yield for the text, or the text as one that cannot be read.
pub open spec fn parsed_from<T, E, F: Fn(&str) -> Result<T, E>>(
    parse: F,
    text: Seq<char>,
    out: Result<Option<T>, XmlErrors>,
) -> bool {
    match out {
        Ok(Some(value)) => exists|given: &str|
            given@ == text && #[trigger] call_ensures(parse, (given,), Ok::<T, E>(value)),
        Ok(None) => false,
        Err(error) => error is ValueFromStr && error->ValueFromStr_t@ == text && exists|
            given: &str,
            cause: E,
        |
            given@ == text && #[trigger] call_ensures(parse, (given,), Err::<T, E>(cause)),
    }
}

impl Element {
    /// Goes down from `tree` by the names in turn: for each name to the first
    /// child that carries it. A failure names `whole` as what was not found.
    pub fn find_path<'a>(names: &Vec<String>, whole: &str, tree: &'a Element) -> (found: Result<
        &'a Element,
        XmlErrors,
    >)
        ensures
            match found {
                Ok(element) => follow(tree@, texts(names@)) is Some && element@ == node_at(
                    tree@,
                    follow(tree@, texts(names@))->0,
                ),
                Err(error) => follow(tree@, texts(names@)) is None && error is ElementNotFound
                    && error->ElementNotFound_t@ == whole@,
            },
    {
        let mut hit = Hit::at_root(tree);
        let mut k: usize = 0;
        let ghost all = texts(names@);
        assert(all.take(0) =~= Seq::<Seq<char>>::empty());
        while k < names.len()
            invariant
                k <= names@.len(),
                all == texts(names@),
                hit.anchored(tree@),
                follow(tree@, all.take(k as int)) == Some(hit.place()),
            decreases names@.len() - k,
        {
            assert(all.take(k + 1).drop_last() =~= all.take(k as int));
            assert(all.take(k + 1).last() == names@[k as int]@);
            let family = every_child(&hit, Ghost(tree@));
            match first_index(&family, &names[k], Ghost(tree@)) {
                Some(i) => {
                    assert(family@[i as int].anchored(tree@));
                    hit = family[i].copy();
                },
                None => {
                    proof {
                        lemma_follow_lost(tree@, all, k + 1);
                    }
                    return Err(XmlErrors::ElementNotFound { t: String::from_str(whole) });
                },
            }
            k += 1;
        }
        assert(all.take(names@.len() as int) =~= all);
        Ok(hit.node)
    }

    /// The element reached from this one by a path of tag names with `/`
    /// between them: for each name the first child that carries it.
    pub fn find(&self, path: &str) -> (found: Result<&Element, XmlErrors>)
        ensures
            match found {
                Ok(element) => follow(self@, split(path@, '/')) is Some && element@ == node_at(
                    self@,
                    follow(self@, split(path@, '/'))->0,
                ),
                Err(error) => follow(self@, split(path@, '/')) is None && error is ElementNotFound
                    && error->ElementNotFound_t@ == path@,
            },
    {
        let names = split_text(path, '/');
        Element::find_path(&names, path, self)
    }

    /// The value that `parse` reads from the text of the element at `path`.
    /// Without a text there is no value.
    pub fn find_value<T, E, F>(&self, path: &str, parse: F) -> (out: Result<Option<T>, XmlErrors>) where
        F: Fn(&str) -> Result<T, E>,

        requires
            forall|text: &str| call_requires(parse, (text,)),
        ensures
            follow(self@, split(path@, '/')) is None ==> out is Err && out->Err_0 is ElementNotFound
                && out->Err_0->ElementNotFound_t@ == path@,
            follow(self@, split(path@, '/')) is Some ==> match node_at(
                self@,
                follow(self@, split(path@, '/'))->0,
            ).text {
                Some(text) => parsed_from(parse, text, out),
                None => out == Ok::<Option<T>, XmlErrors>(None),
            },
    {
        match self.find(path) {
            Ok(element) => match &element.text {
                Some(text) => {
                    let given = text.as_str();
                    let parsed = parse(given);
                    assert(element@.text == Some(text@));
                    let ghost seen = parsed;
                    let out = value_or_error(text, parsed);
                    proof {
                        match seen {
                            Ok(value) => {
                                assert(exists|other: &str|
                                    other@ == text@ && #[trigger] call_ensures(
                                        parse,
                                        (other,),
                                        Ok::<T, E>(value),
                                    )) by {
                                    assert(call_ensures(parse, (given,), Ok::<T, E>(value)));
                                }
                                assert(out matches Ok(Some(v)) && v == value);
                            },
                            Err(cause) => {
                                assert(call_ensures(parse, (given,), Err::<T, E>(cause)));
                            },
                        }
                        assert(parsed_from(parse, text@, out));
                    }
                    out
                },
                None => {
                    assert(element@.text == None::<Seq<char>>);
                    Ok(None)
                },
            },
            Err(error) => Err(error),
        }
    }
}

} // verus!
