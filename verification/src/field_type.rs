//! Column types, and the `name:type` entries that declare them.

use crate::text::{
    equal, law_sides_are_read_back, law_text_without_separator_is_one_part, lower, lower_char,
    lower_text, split_once, split_text_once, texts, trim, trim_text,
};
use vstd::hash_map::StringHashMap;
use vstd::prelude::*;

verus! {

/// Field type override, used both for CSV formatting and Parquet schema.
#[derive(Copy, Clone, Debug, PartialEq, Eq, Structural)]
pub enum FieldType {
    String,
    Int32,
    Int64,
    Double,
    Bool,
    /// Milliseconds since epoch, UTC.
    Timestamp,
}

/// The type with the given name, in lower case.
pub open spec fn type_named(name: Seq<char>) -> Option<FieldType> {
    if name == "string"@ || name == "str"@ || name == "utf8"@ {
        Some(FieldType::String)
    } else if name == "int32"@ || name == "i32"@ {
        Some(FieldType::Int32)
    } else if name == "int64"@ || name == "i64"@ || name == "long"@ {
        Some(FieldType::Int64)
    } else if name == "double"@ || name == "f64"@ || name == "float"@ {
        Some(FieldType::Double)
    } else if name == "bool"@ || name == "boolean"@ {
        Some(FieldType::Bool)
    } else if name == "timestamp"@ || name == "datetime"@ || name == "date"@ {
        Some(FieldType::Timestamp)
    } else {
        None
    }
}

/// The type with the given name, in any case of letters, or that there is none.
pub open spec fn type_of(s: Seq<char>) -> Result<FieldType, FieldTypeFault> {
    match type_named(lower(s)) {
        Some(t) => Ok(t),
        None => Err(FieldTypeFault::UnknownType(lower(s))),
    }
}

/// What is wrong with a `name:type` entry.
#[derive(Debug)]
pub enum FieldTypeError {
    /// The entry, which has no colon.
    NotNameAndType(String),
    /// The entry, whose name is empty.
    EmptyName(String),
    /// The name of the type, in lower case, which is no type's name.
    UnknownType(String),
}

/// A fault of an entry, by its texts.
pub enum FieldTypeFault {
    NotNameAndType(Seq<char>),
    EmptyName(Seq<char>),
    UnknownType(Seq<char>),
}

impl View for FieldTypeError {
    type V = FieldTypeFault;

    open spec fn view(&self) -> FieldTypeFault {
        match self {
            FieldTypeError::NotNameAndType(e) => FieldTypeFault::NotNameAndType(e@),
            FieldTypeError::EmptyName(e) => FieldTypeFault::EmptyName(e@),
            FieldTypeError::UnknownType(t) => FieldTypeFault::UnknownType(t@),
        }
    }
}

impl FieldTypeFault {
    /// The fault in words.
    pub open spec fn message(self) -> Seq<char> {
        match self {
            FieldTypeFault::NotNameAndType(e) => "--field-type must be name:type (got '"@ + e
                + "')"@,
            FieldTypeFault::EmptyName(e) => "--field-type name cannot be empty (in '"@ + e + "')"@,
            FieldTypeFault::UnknownType(t) => "Unknown field type '"@ + t
                + "'. Supported: string, int32, int64, double, bool, timestamp"@,
        }
    }
}

impl FieldTypeError {
    /// The fault in words.
    pub fn message(&self) -> (r: String)
        ensures
            r@ == self@.message(),
    {
        match self {
            FieldTypeError::NotNameAndType(e) => {
                "--field-type must be name:type (got '".to_owned().concat(e.as_str()).concat("')")
            },
            FieldTypeError::EmptyName(e) => {
                "--field-type name cannot be empty (in '".to_owned().concat(e.as_str()).concat("')")
            },
            FieldTypeError::UnknownType(t) => {
                "Unknown field type '".to_owned().concat(t.as_str()).concat(
                    "'. Supported: string, int32, int64, double, bool, timestamp",
                )
            },
        }
    }
}

impl FieldType {
    /// The type with the given name, in any case of letters.
    pub fn parse(s: &str) -> (r: Result<FieldType, FieldTypeError>)
        ensures
            match r {
                Ok(t) => type_of(s@) == Ok::<_, FieldTypeFault>(t),
                Err(e) => type_of(s@) == Err::<FieldType, _>(e@),
            },
    {
        let name = lower_text(s);
        let n = name.as_str();
        if equal(n, "string") || equal(n, "str") || equal(n, "utf8") {
            Ok(FieldType::String)
        } else if equal(n, "int32") || equal(n, "i32") {
            Ok(FieldType::Int32)
        } else if equal(n, "int64") || equal(n, "i64") || equal(n, "long") {
            Ok(FieldType::Int64)
        } else if equal(n, "double") || equal(n, "f64") || equal(n, "float") {
            Ok(FieldType::Double)
        } else if equal(n, "bool") || equal(n, "boolean") {
            Ok(FieldType::Bool)
        } else if equal(n, "timestamp") || equal(n, "datetime") || equal(n, "date") {
            Ok(FieldType::Timestamp)
        } else {
            Err(FieldTypeError::UnknownType(name))
        }
    }
}

/// The field and the type that an entry declares, or what is wrong with it.
pub open spec fn declaration(entry: Seq<char>) -> Result<(Seq<char>, FieldType), FieldTypeFault> {
    match split_once(entry, ':') {
        None => Err(FieldTypeFault::NotNameAndType(entry)),
        Some((name, ty)) => if trim(name).len() == 0 {
            Err(FieldTypeFault::EmptyName(entry))
        } else {
            match type_named(lower(trim(ty))) {
                None => Err(FieldTypeFault::UnknownType(lower(trim(ty)))),
                Some(t) => Ok((trim(name), t)),
            }
        },
    }
}

/// The map after the entries up to the first faulty one, and that one's fault.
pub open spec fn declared(
    entries: Seq<Seq<char>>,
    map: Map<Seq<char>, FieldType>,
) -> (Map<Seq<char>, FieldType>, Option<FieldTypeFault>)
    decreases entries.len(),
{
    if entries.len() == 0 {
        (map, None)
    } else {
        match declaration(entries[0]) {
            Ok((name, ty)) => declared(entries.drop_first(), map.insert(name, ty)),
            Err(fault) => (map, Some(fault)),
        }
    }
}

fn parse_declaration(entry: &String) -> (r: Result<(String, FieldType), FieldTypeError>)
    ensures
        match r {
            Ok((name, ty)) => declaration(entry@) == Ok::<_, FieldTypeFault>((name@, ty)),
            Err(e) => declaration(entry@) == Err::<(Seq<char>, FieldType), _>(e@),
        },
{
    match split_text_once(entry.as_str(), ':') {
        None => Err(FieldTypeError::NotNameAndType(entry.clone())),
        Some((name, ty)) => {
            let name = trim_text(name.as_str());
            let ty = trim_text(ty.as_str());
            if name.as_str().is_empty() {
                return Err(FieldTypeError::EmptyName(entry.clone()));
            }
            match FieldType::parse(ty.as_str()) {
                Ok(t) => Ok((name, t)),
                Err(e) => Err(e),
            }
        },
    }
}

/// The types that were declared, by the names of the fields.
pub struct FieldTypes {
    types: StringHashMap<FieldType>,
}

impl View for FieldTypes {
    type V = Map<Seq<char>, FieldType>;

    closed spec fn view(&self) -> Map<Seq<char>, FieldType> {
        self.types@
    }
}

impl FieldTypes {
    /// No declarations.
    pub fn new() -> (r: FieldTypes)
        ensures
            r@ == Map::<Seq<char>, FieldType>::empty(),
    {
        FieldTypes { types: StringHashMap::new() }
    }

    /// The number of fields with a declared type.
    pub fn len(&self) -> (r: usize)
        ensures
            r == self@.len(),
    {
        self.types.len()
    }

    /// The type that was declared for a field, if any.
    pub fn get(&self, name: &str) -> (r: Option<FieldType>)
        ensures
            r == if self@.dom().contains(name@) {
                Some(self@[name@])
            } else {
                None
            },
    {
        match self.types.get(name) {
            Some(ty) => Some(*ty),
            None => None,
        }
    }

    fn insert(&mut self, name: String, ty: FieldType)
        ensures
            final(self)@ == old(self)@.insert(name@, ty),
    {
        self.types.insert(name, ty);
    }
}

/// Parses `--field-type` entries of the form `name:type` into `map`. The entries before
/// a faulty one are in the map also where the result is an error.
pub fn parse_field_types(entries: &[String], map: &mut FieldTypes) -> (r: Result<
    (),
    FieldTypeError,
>)
    ensures
        final(map)@ == declared(texts(entries@), old(map)@).0,
        match r {
            Ok(()) => declared(texts(entries@), old(map)@).1 is None,
            Err(e) => declared(texts(entries@), old(map)@).1 == Some(e@),
        },
{
    let mut i: usize = 0;
    let ghost all = texts(entries@);
    let ghost outcome = declared(all, map@);
    proof {
        assert(all.skip(0) =~= all);
    }
    while i < entries.len()
        invariant
            i <= entries.len(),
            all == texts(entries@),
            outcome == declared(all, old(map)@),
            declared(all.skip(i as int), map@) == outcome,
        ensures
            outcome == (map@, None::<FieldTypeFault>),
        decreases entries.len() - i,
    {
        let ghost rest = all.skip(i as int);
        assert(rest[0] == entries@[i as int]@);
        assert(rest.drop_first() =~= all.skip(i + 1));
        match parse_declaration(&entries[i]) {
            Ok((name, ty)) => {
                map.insert(name, ty);
            },
            Err(e) => {
                return Err(e);
            },
        }
        i += 1;
    }
    Ok(())
}

/// Declarations in two batches are the same as in one, where the first batch has no
/// faulty entry.
pub proof fn law_declarations_add_up(
    first: Seq<Seq<char>>,
    second: Seq<Seq<char>>,
    map: Map<Seq<char>, FieldType>,
)
    requires
        declared(first, map).1 is None,
    ensures
        declared(second, declared(first, map).0) == declared(first + second, map),
    decreases first.len(),
{
    let all = first + second;
    if first.len() == 0 {
        assert(all =~= second);
    } else {
        assert(all[0] == first[0]);
        assert(all.drop_first() =~= first.drop_first() + second);
        match declaration(first[0]) {
            Ok((name, ty)) => {
                law_declarations_add_up(first.drop_first(), second, map.insert(name, ty));
            },
            Err(_) => {},
        }
    }
}

/// The last declaration of a field is the one that counts, and a declaration changes the
/// type of no other field.
pub proof fn law_last_declaration_counts(
    entries: Seq<Seq<char>>,
    last: Seq<char>,
    map: Map<Seq<char>, FieldType>,
)
    requires
        declared(entries, map).1 is None,
        declaration(last) is Ok,
    ensures
        declared(entries.push(last), map) == (
            declared(entries, map).0.insert(declaration(last)->Ok_0.0, declaration(last)->Ok_0.1),
            None::<FieldTypeFault>,
        ),
{
    law_declarations_add_up(entries, seq![last], map);
    assert(entries + seq![last] =~= entries.push(last));
    reveal_with_fuel(declared, 2);
    assert(seq![last].drop_first() =~= Seq::empty());
}

/// The name of a type may be written in any case of letters: names that differ in the
/// case of their letters alone are those of the same type.
pub proof fn law_case_of_type_names_does_not_matter(a: Seq<char>, b: Seq<char>)
    requires
        a.len() == b.len(),
        forall|i: int| 0 <= i < a.len() ==> lower_char(#[trigger] a[i]) == lower_char(b[i]),
    ensures
        type_named(lower(a)) == type_named(lower(b)),
{
    assert(lower(a) =~= lower(b));
}

/// The names of the types, and no other text names a type.
pub proof fn law_types_have_these_names(name: Seq<char>)
    ensures
        type_named(name) == Some(FieldType::String) <==> name == "string"@ || name == "str"@
            || name == "utf8"@,
        type_named(name) == Some(FieldType::Int32) <==> name == "int32"@ || name == "i32"@,
        type_named(name) == Some(FieldType::Int64) <==> name == "int64"@ || name == "i64"@ || name
            == "long"@,
        type_named(name) == Some(FieldType::Double) <==> name == "double"@ || name == "f64"@
            || name == "float"@,
        type_named(name) == Some(FieldType::Bool) <==> name == "bool"@ || name == "boolean"@,
        type_named(name) == Some(FieldType::Timestamp) <==> name == "timestamp"@ || name
            == "datetime"@ || name == "date"@,
{
    reveal_strlit("string");
    reveal_strlit("str");
    reveal_strlit("utf8");
    reveal_strlit("int32");
    reveal_strlit("i32");
    reveal_strlit("int64");
    reveal_strlit("i64");
    reveal_strlit("long");
    reveal_strlit("double");
    reveal_strlit("f64");
    reveal_strlit("float");
    reveal_strlit("bool");
    reveal_strlit("boolean");
    reveal_strlit("timestamp");
    reveal_strlit("datetime");
    reveal_strlit("date");
    assert("str"@[0] == 's' && "i32"@[0] == 'i' && "i64"@[0] == 'i' && "f64"@[0] == 'f');
    assert("i32"@[1] == '3' && "i64"@[1] == '6');
    assert("utf8"@[0] == 'u' && "long"@[0] == 'l' && "bool"@[0] == 'b' && "date"@[0] == 'd');
    assert("int32"@[0] == 'i' && "int64"@[0] == 'i' && "float"@[0] == 'f');
    assert("int32"@[3] == '3' && "int64"@[3] == '6');
    assert("string"@[0] == 's' && "double"@[0] == 'd');
    assert("str"@.len() == 3 && "i32"@.len() == 3 && "i64"@.len() == 3 && "f64"@.len() == 3);
    assert("utf8"@.len() == 4 && "long"@.len() == 4 && "bool"@.len() == 4 && "date"@.len() == 4);
    assert("int32"@.len() == 5 && "int64"@.len() == 5 && "float"@.len() == 5);
    assert("string"@.len() == 6 && "double"@.len() == 6 && "boolean"@.len() == 7);
    assert("datetime"@.len() == 8 && "timestamp"@.len() == 9);
}

/// An entry of a name and a type with a colon between them declares the name without the
/// white space around it, at the type that is named without the white space around it, in
/// any case of letters. It is refused where nothing is left of the name, then where no type
/// is so named; an entry without a colon is refused as it is.
pub proof fn law_entries_declare_a_name_and_a_type(name: Seq<char>, ty: Seq<char>)
    requires
        !name.contains(':'),
    ensures
        ({
            let entry = name + seq![':'] + ty;
            let named = type_named(lower(trim(ty)));
            &&& trim(name).len() == 0 ==> declaration(entry) == Err::<(Seq<char>, FieldType), _>(
                FieldTypeFault::EmptyName(entry),
            )
            &&& trim(name).len() > 0 && named is None ==> declaration(entry) == Err::<
                (Seq<char>, FieldType),
                _,
            >(FieldTypeFault::UnknownType(lower(trim(ty))))
            &&& trim(name).len() > 0 && named is Some ==> declaration(entry) == Ok::<
                _,
                FieldTypeFault,
            >((trim(name), named->0))
        }),
        declaration(name) == Err::<(Seq<char>, FieldType), _>(
            FieldTypeFault::NotNameAndType(name),
        ),
{
    law_sides_are_read_back(name, ty, ':');
    law_text_without_separator_is_one_part(name, ':');
}

/// Entries are declared in turn: a right one is in the map before the next is looked at, and
/// a faulty one ends the declarations with the map as it is there.
pub proof fn law_entries_are_declared_in_turn(
    entry: Seq<char>,
    rest: Seq<Seq<char>>,
    map: Map<Seq<char>, FieldType>,
)
    ensures
        declared(Seq::empty(), map) == (map, None::<FieldTypeFault>),
        match declaration(entry) {
            Ok((name, ty)) => declared(seq![entry] + rest, map) == declared(
                rest,
                map.insert(name, ty),
            ),
            Err(fault) => declared(seq![entry] + rest, map) == (map, Some(fault)),
        },
{
    assert((seq![entry] + rest).drop_first() =~= rest);
}

/// A fault in words names the whole entry or type that is faulty.
pub proof fn law_messages_name_what_is_faulty(t: Seq<char>)
    ensures
        FieldTypeFault::NotNameAndType(t).message() == "--field-type must be name:type (got '"@ + t
            + "')"@,
        FieldTypeFault::EmptyName(t).message() == "--field-type name cannot be empty (in '"@ + t
            + "')"@,
        FieldTypeFault::UnknownType(t).message() == "Unknown field type '"@ + t
            + "'. Supported: string, int32, int64, double, bool, timestamp"@,
{
}

/// A fault is seen with the whole of its text.
pub proof fn law_faults_are_seen_whole(e: FieldTypeError)
    ensures
        match e {
            FieldTypeError::NotNameAndType(t) => e@ == FieldTypeFault::NotNameAndType(t@),
            FieldTypeError::EmptyName(t) => e@ == FieldTypeFault::EmptyName(t@),
            FieldTypeError::UnknownType(t) => e@ == FieldTypeFault::UnknownType(t@),
        },
{
}

/// A text is taken for a type exactly where its letters, in lower case, are the name of one,
/// with no white space around them. Any other text is refused, in lower case.
pub proof fn law_types_are_named_in_any_case(s: Seq<char>, t: FieldType)
    ensures
        type_of(s) == Ok::<_, FieldTypeFault>(t) <==> type_named(lower(s)) == Some(t),
        type_of(s) is Err <==> type_named(lower(s)) is None,
        type_of(s) is Err ==> type_of(s) == Err::<FieldType, _>(
            FieldTypeFault::UnknownType(lower(s)),
        ),
{
}

} // verus!
