use vstd::prelude::*;

use crate::ast::{Ident, IdentOrType, IdentifierPath, ParseType, ParseTypeInner};

verus! {

/// How a type is written back: `Name A, B` for a named type with its generic
/// arguments, `A -> B` for a function type (an argument or a result that is
/// itself a function type is in parentheses), `(A, B)` for a tuple, `()` for
/// the unit type, and `[A]` for an array.
pub open spec fn type_text(t: ParseType) -> Seq<char>
    decreases t,
{
    match t {
        ParseType::Type(inner) => inner_text(inner),
        ParseType::Function(list) => types_text(list@, " -> "@, true),
        ParseType::Tuple(list) => "("@ + types_text(list@, ", "@, false) + ")"@,
        ParseType::Unit => "()"@,
        ParseType::Array(element) => "["@ + type_text(*element) + "]"@,
    }
}

/// A named type with its generic arguments, separated from the name by a
/// space and from each other by a coma.
pub open spec fn inner_text(inner: ParseTypeInner) -> Seq<char>
    decreases inner,
{
    if inner.generics@.len() == 0 {
        inner.name@
    } else {
        inner.name@ + " "@ + types_text(inner.generics@, ", "@, false)
    }
}

/// The types of `list` separated by `sep`; with `wrap`, those that are
/// function types are in parentheses.
pub open spec fn types_text(list: Seq<ParseType>, sep: Seq<char>, wrap: bool) -> Seq<char>
    decreases list,
{
    if list.len() == 0 {
        Seq::empty()
    } else {
        let last = list.last();
        let last_text = if wrap && last is Function {
            "("@ + type_text(last) + ")"@
        } else {
            type_text(last)
        };
        if list.len() == 1 {
            last_text
        } else {
            types_text(list.drop_last(), sep, wrap) + sep + last_text
        }
    }
}

/// How a path is written back: its parts separated by `::`.
pub open spec fn path_text(path: Seq<IdentOrType>) -> Seq<char>
    decreases path.len(),
{
    if path.len() == 0 {
        Seq::empty()
    } else if path.len() == 1 {
        part_text(path[0])
    } else {
        path_text(path.drop_last()) + "::"@ + part_text(path.last())
    }
}

/// A part of a path: a name, or a type.
pub open spec fn part_text(part: IdentOrType) -> Seq<char> {
    match part {
        IdentOrType::Ident(ident) => ident.name@,
        IdentOrType::Type(t) => type_text(t),
    }
}

impl ParseType {
    /// The type as it is written.
    pub fn to_string(&self) -> (res: String)
        ensures
            res@ == type_text(*self),
        decreases self,
    {
        match self {
            ParseType::Type(inner) => inner.to_string(),
            ParseType::Function(list) => join_types(list, " -> ", true),
            ParseType::Tuple(list) => {
                let mut res = String::from_str("(");
                let inner = join_types(list, ", ", false);
                res.append(inner.as_str());
                res.append(")");
                proof {
                    reveal_strlit("(");
                    reveal_strlit(")");
                }
                res
            },
            ParseType::Unit => {
                proof {
                    reveal_strlit("()");
                }
                String::from_str("()")
            },
            ParseType::Array(element) => {
                let mut res = String::from_str("[");
                let inner = element.to_string();
                res.append(inner.as_str());
                res.append("]");
                proof {
                    reveal_strlit("[");
                    reveal_strlit("]");
                }
                res
            },
        }
    }
}

impl ParseTypeInner {
    /// The named type as it is written, with its generic arguments.
    pub fn to_string(&self) -> (res: String)
        ensures
            res@ == inner_text(*self),
        decreases self,
    {
        let mut res = self.name.clone();
        if self.generics.len() > 0 {
            res.append(" ");
            let generics = join_types(&self.generics, ", ", false);
            res.append(generics.as_str());
        }
        res
    }
}

/// The types of `list` separated by `sep`, those that are function types in
/// parentheses when `wrap` is asked.
pub fn join_types(list: &Vec<ParseType>, sep: &str, wrap: bool) -> (res: String)
    ensures
        res@ == types_text(list@, sep@, wrap),
    decreases list@,
{
    let mut res = String::new();
    let mut i: usize = 0;
    assert(list@.take(0) =~= Seq::<ParseType>::empty());
    while i < list.len()
        invariant
            i <= list@.len(),
            res@ == types_text(list@.take(i as int), sep@, wrap),
        decreases list@.len() - i,
    {
        let ghost prefix = list@.take(i + 1);
        assert(prefix.drop_last() =~= list@.take(i as int));
        assert(prefix.last() == list@[i as int]);
        if i > 0 {
            res.append(sep);
        }
        let element = &list[i];
        let is_function = match element {
            ParseType::Function(_) => true,
            _ => false,
        };
        if wrap && is_function {
            res.append("(");
            let text = element.to_string();
            res.append(text.as_str());
            res.append(")");
            proof {
                reveal_strlit("(");
                reveal_strlit(")");
            }
        } else {
            let text = element.to_string();
            res.append(text.as_str());
        }
        i = i + 1;
    }
    assert(list@.take(i as int) =~= list@);
    res
}

impl Ident {
    /// The name as it is written.
    pub fn to_string(&self) -> (res: String)
        ensures
            res@ == self.name@,
    {
        self.name.clone()
    }
}

impl IdentifierPath {
    /// The path as it is written, its parts separated by `::`.
    pub fn to_string(&self) -> (res: String)
        ensures
            res@ == path_text(self.path@),
    {
        let mut res = String::new();
        let mut i: usize = 0;
        assert(self.path@.take(0) =~= Seq::<IdentOrType>::empty());
        while i < self.path.len()
            invariant
                i <= self.path@.len(),
                res@ == path_text(self.path@.take(i as int)),
            decreases self.path@.len() - i,
        {
            let ghost prefix = self.path@.take(i + 1);
            assert(prefix.drop_last() =~= self.path@.take(i as int));
            if i > 0 {
                res.append("::");
            }
            match &self.path[i] {
                IdentOrType::Ident(ident) => {
                    res.append(ident.name.as_str());
                },
                IdentOrType::Type(t) => {
                    let text = t.to_string();
                    res.append(text.as_str());
                },
            }
            i = i + 1;
        }
        assert(self.path@.take(i as int) =~= self.path@);
        res
    }
}

} // verus!
