//! # Parameters
//!
//! Every processor type has a fixed list of parameters. A parameter has a
//! name and a type out of a small set, and is read and written as a string.

use crate::geometry::scalar::Scalar;
use crate::geometry::Position;
use crate::geometry_processors::{bool_text, bool_to_string, parse_bool, same_text};
use crate::graph::text::{
    digits_of, integer_digits, integer_of, integer_text, join_position, join_position_list,
    listed, owned_pairs, pairs, parse_integer, parse_unsigned, position_fields,
    position_list_fields, split_position, split_position_list, unsigned_of, unsigned_text,
};
use crate::hardeen_error::HardeenError;
use vstd::prelude::*;

verus! {

/// One entry of a processor type's list of parameters.
#[derive(Clone, Copy, Debug)]
pub struct ProcessorParameter {
    pub param_type: &'static str,
    pub param_name: &'static str,
}

/// The types a parameter can have.
#[derive(Clone, Copy, Debug, PartialEq, Eq, Structural)]
pub enum ParameterType {
    Integer,
    UnsignedInteger,
    Float,
    Boolean,
    Position,
    String,
    PositionList,
}

/// How a processor type takes its inputs.
#[derive(Clone, Copy, Debug, PartialEq, Eq, Structural)]
pub enum ProcessorInputType {
    Slotted { number_of_slots: u8 },
    Multiple { zero_allowed: bool },
}

/// What is known of a processor type: its name, how it takes its inputs, and
/// its parameters.
#[derive(Debug)]
pub struct ProcessorTypeInfo {
    pub name: &'static str,
    pub input_type: ProcessorInputType,
    pub parameters: Vec<ProcessorParameter>,
}

impl ProcessorTypeInfo {
    pub fn new(
        name: &'static str,
        input_type: ProcessorInputType,
        parameters: Vec<ProcessorParameter>,
    ) -> (info: Self)
        ensures
            info.name == name,
            info.input_type == input_type,
            info.parameters == parameters,
    {
        ProcessorTypeInfo { name, input_type, parameters }
    }
}


/// The names and the tags of the types of a list of parameters.
pub open spec fn parameter_views(parameters: Seq<ProcessorParameter>) -> Seq<(Seq<char>, Seq<char>)> {
    Seq::new(parameters.len(), |i: int| (parameters[i].param_name@, parameters[i].param_type@))
}

/// The texts of a list of pairs of names and tags.
pub open spec fn pair_views(pairs: Seq<(&'static str, &'static str)>) -> Seq<(Seq<char>, Seq<char>)> {
    Seq::new(pairs.len(), |i: int| (pairs[i].0@, pairs[i].1@))
}

/// A list of parameters, from their names and the tags of their types.
pub fn parameters_of(pairs: Vec<(&'static str, &'static str)>) -> (parameters: Vec<
    ProcessorParameter,
>)
    ensures
        parameter_views(parameters@) == pair_views(pairs@),
{
    let mut parameters: Vec<ProcessorParameter> = Vec::new();
    let mut at: usize = 0;
    while at < pairs.len()
        invariant
            at <= pairs@.len(),
            parameters@.len() == at,
            forall|i: int|
                0 <= i < at ==> (#[trigger] parameters@[i]).param_name@ == pairs@[i].0@
                    && parameters@[i].param_type@ == pairs@[i].1@,
        decreases pairs@.len() - at,
    {
        parameters.push(ProcessorParameter { param_name: pairs[at].0, param_type: pairs[at].1 });
        at += 1;
    }
    assert(parameter_views(parameters@) =~= pair_views(pairs@));
    parameters
}

/// The tag of a parameter type, as the lists of parameters give it.
pub open spec fn type_tag(kind: ParameterType) -> Seq<char> {
    match kind {
        ParameterType::Integer => "Integer"@,
        ParameterType::UnsignedInteger => "UnsignedInteger"@,
        ParameterType::Float => "Float"@,
        ParameterType::Boolean => "Boolean"@,
        ParameterType::Position => "Position"@,
        ParameterType::String => "String"@,
        ParameterType::PositionList => "PositionList"@,
    }
}

/// The parameter type that a tag names, if it names one.
pub open spec fn tagged(tag: Seq<char>) -> Option<ParameterType> {
    if tag == "Integer"@ {
        Some(ParameterType::Integer)
    } else if tag == "UnsignedInteger"@ {
        Some(ParameterType::UnsignedInteger)
    } else if tag == "Float"@ {
        Some(ParameterType::Float)
    } else if tag == "Boolean"@ {
        Some(ParameterType::Boolean)
    } else if tag == "Position"@ {
        Some(ParameterType::Position)
    } else if tag == "String"@ {
        Some(ParameterType::String)
    } else if tag == "PositionList"@ {
        Some(ParameterType::PositionList)
    } else {
        None
    }
}

impl ParameterType {
    /// The tag of the type.
    pub fn tag(&self) -> (tag: &'static str)
        ensures
            tag@ == type_tag(*self),
    {
        match self {
            ParameterType::Integer => "Integer",
            ParameterType::UnsignedInteger => "UnsignedInteger",
            ParameterType::Float => "Float",
            ParameterType::Boolean => "Boolean",
            ParameterType::Position => "Position",
            ParameterType::String => "String",
            ParameterType::PositionList => "PositionList",
        }
    }

    /// The type that a tag names.
    pub fn from_tag(tag: &str) -> (kind: Option<ParameterType>)
        ensures
            kind == tagged(tag@),
    {
        if same_text(tag, "Integer") {
            Some(ParameterType::Integer)
        } else if same_text(tag, "UnsignedInteger") {
            Some(ParameterType::UnsignedInteger)
        } else if same_text(tag, "Float") {
            Some(ParameterType::Float)
        } else if same_text(tag, "Boolean") {
            Some(ParameterType::Boolean)
        } else if same_text(tag, "Position") {
            Some(ParameterType::Position)
        } else if same_text(tag, "String") {
            Some(ParameterType::String)
        } else if same_text(tag, "PositionList") {
            Some(ParameterType::PositionList)
        } else {
            None
        }
    }
}

/// A tag reads as the type that it was written for.
pub proof fn lemma_tag_round_trip(kind: ParameterType)
    ensures
        tagged(type_tag(kind)) == Some(kind),
{
    reveal_strlit("Integer");
    reveal_strlit("UnsignedInteger");
    reveal_strlit("Float");
    reveal_strlit("Boolean");
    reveal_strlit("Position");
    reveal_strlit("String");
    reveal_strlit("PositionList");
    assert("Integer"@.len() == 7);
    assert("UnsignedInteger"@.len() == 15);
    assert("Float"@.len() == 5);
    assert("Boolean"@.len() == 7);
    assert("Position"@.len() == 8);
    assert("String"@.len() == 6);
    assert("PositionList"@.len() == 12);
    assert("Integer"@[0] == 'I');
    assert("Boolean"@[0] == 'B');
}

/// A list of positions.
#[derive(Debug)]
pub struct PositionList(pub Vec<Position>);

/// The value of a parameter, of one of the types a parameter can have.
/// A coordinate is held as a scalar; its text is read and written by the
/// functions that the caller hands in.
#[derive(Debug)]
pub enum Parameter {
    Integer(i32),
    UnsignedInteger(u32),
    Float(Scalar),
    Boolean(bool),
    Position(Scalar, Scalar),
    String(String),
    PositionList(PositionList),
}

/// `scalar` can give `value` for a string of the text `text`.
pub open spec fn scalar_read<F: Fn(&str) -> Option<Scalar>>(
    scalar: F,
    text: Seq<char>,
    value: Option<Scalar>,
) -> bool {
    exists|t: &str| #![trigger call_ensures(scalar, (t,), value)]
        t@ == text && call_ensures(scalar, (t,), value)
}

/// `scalar` can give the two coordinates of a position for their texts.
pub open spec fn position_read<F: Fn(&str) -> Option<Scalar>>(
    scalar: F,
    fields: (Seq<char>, Seq<char>),
    position: Position,
) -> bool {
    scalar_read(scalar, fields.0, Some(position.0)) && scalar_read(
        scalar,
        fields.1,
        Some(position.1),
    )
}

/// `scalar` can fail on one of the two texts of a position.
pub open spec fn position_refused<F: Fn(&str) -> Option<Scalar>>(
    scalar: F,
    fields: (Seq<char>, Seq<char>),
) -> bool {
    scalar_read(scalar, fields.0, None) || scalar_read(scalar, fields.1, None)
}

/// `scalar` can fail on one of the texts of a list of positions.
pub open spec fn some_refused<F: Fn(&str) -> Option<Scalar>>(
    scalar: F,
    fields: Seq<(Seq<char>, Seq<char>)>,
) -> bool {
    exists|i: int| 0 <= i && i < fields.len() && position_refused(scalar, #[trigger] fields[i])
}

/// What reading a text as a parameter of a type can give, where `scalar`
/// reads the coordinates. Whole numbers, truth values and strings are
/// read here; of a position and of a list of positions the
/// text is cut here and each coordinate read by `scalar`. A text that
/// does not read is a parse error.
pub open spec fn reads<F: Fn(&str) -> Option<Scalar>>(
    kind: ParameterType,
    text: Seq<char>,
    scalar: F,
    result: Result<Parameter, HardeenError>,
) -> bool {
    match kind {
        ParameterType::Integer => match integer_of(text) {
            Some(value) => result == Ok::<Parameter, HardeenError>(
                Parameter::Integer(value as i32),
            ),
            None => result == Err::<Parameter, HardeenError>(HardeenError::ParseError),
        },
        ParameterType::UnsignedInteger => match unsigned_of(text, u32::MAX as nat) {
            Some(value) => result == Ok::<Parameter, HardeenError>(
                Parameter::UnsignedInteger(value as u32),
            ),
            None => result == Err::<Parameter, HardeenError>(HardeenError::ParseError),
        },
        ParameterType::Boolean => if text == "true"@ {
            result == Ok::<Parameter, HardeenError>(Parameter::Boolean(true))
        } else if text == "false"@ {
            result == Ok::<Parameter, HardeenError>(Parameter::Boolean(false))
        } else {
            result == Err::<Parameter, HardeenError>(HardeenError::ParseError)
        },
        ParameterType::String => result matches Ok(Parameter::String(held)) && held@ == text,
        ParameterType::Float => match result {
            Ok(Parameter::Float(value)) => scalar_read(scalar, text, Some(value)),
            Err(HardeenError::ParseError) => scalar_read(scalar, text, None),
            _ => false,
        },
        ParameterType::Position => match position_fields(text) {
            Some(fields) => match result {
                Ok(Parameter::Position(x, y)) => position_read(scalar, fields, Position(x, y)),
                Err(HardeenError::ParseError) => position_refused(scalar, fields),
                _ => false,
            },
            None => result == Err::<Parameter, HardeenError>(HardeenError::ParseError),
        },
        ParameterType::PositionList => match position_list_fields(text) {
            Some(fields) => match result {
                Ok(Parameter::PositionList(list)) => {
                    &&& list.0@.len() == fields.len()
                    &&& forall|i: int|
                        0 <= i < fields.len() ==> position_read(
                            scalar,
                            fields[i],
                            #[trigger] list.0@[i],
                        )
                },
                Err(HardeenError::ParseError) => some_refused(scalar, fields),
                _ => false,
            },
            None => result == Err::<Parameter, HardeenError>(HardeenError::ParseError),
        },
    }
}

/// `scalar_text` can write `text` for a scalar.
pub open spec fn scalar_written<G: Fn(Scalar) -> String>(
    scalar_text: G,
    value: Scalar,
    text: Seq<char>,
) -> bool {
    exists|t: String| #![trigger call_ensures(scalar_text, (value,), t)]
        t@ == text && call_ensures(scalar_text, (value,), t)
}

/// `scalar_text` can write the two texts for the coordinates of a
/// position.
pub open spec fn position_written<G: Fn(Scalar) -> String>(
    scalar_text: G,
    position: Position,
    fields: (Seq<char>, Seq<char>),
) -> bool {
    scalar_written(scalar_text, position.0, fields.0) && scalar_written(
        scalar_text,
        position.1,
        fields.1,
    )
}

/// What writing a parameter out can give, where `scalar_text` writes the
/// coordinates: a whole number in decimal digits, a truth value as
/// "true" or "false", a string as it is, a position as "x,y", a list of
/// positions with a semicolon behind each.
pub open spec fn writes<G: Fn(Scalar) -> String>(
    parameter: &Parameter,
    scalar_text: G,
    text: Seq<char>,
) -> bool {
    match parameter {
        Parameter::Integer(value) => text == integer_digits(*value as int),
        Parameter::UnsignedInteger(value) => text == digits_of(*value as nat),
        Parameter::Boolean(value) => text == bool_text(*value),
        Parameter::String(held) => text == held@,
        Parameter::Float(value) => scalar_written(scalar_text, *value, text),
        Parameter::Position(x, y) => exists|fields: (Seq<char>, Seq<char>)|
            #![trigger position_written(scalar_text, Position(*x, *y), fields)]
            position_written(scalar_text, Position(*x, *y), fields) && text == fields.0 + seq![',']
                + fields.1,
        Parameter::PositionList(list) => exists|fields: Seq<(Seq<char>, Seq<char>)>|
            #![trigger listed(fields)]
            {
                &&& fields.len() == list.0@.len()
                &&& forall|i: int|
                    0 <= i < fields.len() ==> position_written(
                        scalar_text,
                        list.0@[i],
                        #[trigger] fields[i],
                    )
                &&& text == listed(fields)
            },
    }
}

fn read_position<F: Fn(&str) -> Option<Scalar>>(fields: (&str, &str), scalar: &F) -> (position:
    Option<Position>)
    requires
        forall|t: &str| call_requires(*scalar, (t,)),
    ensures
        position matches Some(p) ==> position_read(*scalar, (fields.0@, fields.1@), p),
        position is None ==> position_refused(*scalar, (fields.0@, fields.1@)),
{
    match scalar(fields.0) {
        Some(x) => match scalar(fields.1) {
            Some(y) => Some(Position(x, y)),
            None => None,
        },
        None => None,
    }
}

impl Parameter {
    /// The type of the value.
    pub open spec fn kind(&self) -> ParameterType {
        match self {
            Parameter::Integer(_) => ParameterType::Integer,
            Parameter::UnsignedInteger(_) => ParameterType::UnsignedInteger,
            Parameter::Float(_) => ParameterType::Float,
            Parameter::Boolean(_) => ParameterType::Boolean,
            Parameter::Position(_, _) => ParameterType::Position,
            Parameter::String(_) => ParameterType::String,
            Parameter::PositionList(_) => ParameterType::PositionList,
        }
    }

    pub fn get_parameter_type(&self) -> (kind: ParameterType)
        ensures
            kind == self.kind(),
    {
        match self {
            Parameter::Integer(_) => ParameterType::Integer,
            Parameter::UnsignedInteger(_) => ParameterType::UnsignedInteger,
            Parameter::Float(_) => ParameterType::Float,
            Parameter::Boolean(_) => ParameterType::Boolean,
            Parameter::Position(_, _) => ParameterType::Position,
            Parameter::String(_) => ParameterType::String,
            Parameter::PositionList(_) => ParameterType::PositionList,
        }
    }

    /// The tag of the value's type.
    pub fn get_type(&self) -> (tag: &'static str)
        ensures
            tag@ == type_tag(self.kind()),
    {
        self.get_parameter_type().tag()
    }

    /// Reads a text as a value of a type.
    pub fn read<F: Fn(&str) -> Option<Scalar>>(kind: ParameterType, value: &str, scalar: F) -> (result:
        Result<Parameter, HardeenError>)
        requires
            forall|t: &str| call_requires(scalar, (t,)),
        ensures
            reads(kind, value@, scalar, result),
    {
        match kind {
            ParameterType::Integer => match parse_integer(value) {
                Some(number) => Ok(Parameter::Integer(number)),
                None => Err(HardeenError::ParseError),
            },
            ParameterType::UnsignedInteger => match parse_unsigned(value) {
                Some(number) => Ok(Parameter::UnsignedInteger(number)),
                None => Err(HardeenError::ParseError),
            },
            ParameterType::Boolean => match parse_bool(value) {
                Some(truth) => Ok(Parameter::Boolean(truth)),
                None => Err(HardeenError::ParseError),
            },
            ParameterType::String => Ok(Parameter::String(String::from_str(value))),
            ParameterType::Float => match scalar(value) {
                Some(number) => Ok(Parameter::Float(number)),
                None => Err(HardeenError::ParseError),
            },
            ParameterType::Position => match split_position(value) {
                Some(fields) => match read_position(fields, &scalar) {
                    Some(position) => Ok(Parameter::Position(position.0, position.1)),
                    None => Err(HardeenError::ParseError),
                },
                None => Err(HardeenError::ParseError),
            },
            ParameterType::PositionList => match split_position_list(value) {
                Some(fields) => {
                    let mut list: Vec<Position> = Vec::new();
                    let mut at: usize = 0;
                    while at < fields.len()
                        invariant
                            at <= fields@.len(),
                            list@.len() == at,
                            kind == ParameterType::PositionList,
                            position_list_fields(value@) == Some(pairs(fields@)),
                            forall|t: &str| call_requires(scalar, (t,)),
                            forall|i: int|
                                0 <= i < at ==> position_read(
                                    scalar,
                                    pairs(fields@)[i],
                                    #[trigger] list@[i],
                                ),
                        decreases fields@.len() - at,
                    {
                        match read_position(fields[at], &scalar) {
                            Some(position) => {
                                list.push(position);
                            },
                            None => {
                                let ghost cut = pairs(fields@);
                                assert(position_refused(scalar, cut[at as int]));
                                assert(0 <= at < cut.len());
                                assert(some_refused(scalar, cut));
                                return Err(HardeenError::ParseError);
                            },
                        }
                        at += 1;
                    }
                    Ok(Parameter::PositionList(PositionList(list)))
                },
                None => Err(HardeenError::ParseError),
            },
        }
    }

    /// Reads a text as a value of the type that a tag names.
    pub fn from_string<F: Fn(&str) -> Option<Scalar>>(
        value: &str,
        parameter_type: &str,
        scalar: F,
    ) -> (result: Result<Parameter, HardeenError>)
        requires
            tagged(parameter_type@) is Some,
            forall|t: &str| call_requires(scalar, (t,)),
        ensures
            reads(tagged(parameter_type@)->0, value@, scalar, result),
    {
        match ParameterType::from_tag(parameter_type) {
            Some(kind) => Parameter::read(kind, value, scalar),
            None => Err(HardeenError::ParseError),
        }
    }

    /// Reads a text as a new value of the type that the parameter has.
    /// A text that does not read leaves the parameter as it was.
    pub fn set<F: Fn(&str) -> Option<Scalar>>(&mut self, value: &str, scalar: F) -> (result: Result<
        (),
        HardeenError,
    >)
        requires
            forall|t: &str| call_requires(scalar, (t,)),
        ensures
            match result {
                Ok(_) => reads(
                    old(self).kind(),
                    value@,
                    scalar,
                    Ok::<Parameter, HardeenError>(*final(self)),
                ),
                Err(error) => *final(self) == *old(self) && reads(
                    old(self).kind(),
                    value@,
                    scalar,
                    Err::<Parameter, HardeenError>(error),
                ),
            },
    {
        match Parameter::read(self.get_parameter_type(), value, scalar) {
            Ok(parameter) => {
                *self = parameter;
                Ok(())
            },
            Err(error) => Err(error),
        }
    }

    /// Writes the value out.
    pub fn to_string<G: Fn(Scalar) -> String>(&self, scalar_text: G) -> (text: String)
        requires
            forall|value: Scalar| call_requires(scalar_text, (value,)),
        ensures
            writes(self, scalar_text, text@),
    {
        match self {
            Parameter::Integer(value) => integer_text(*value),
            Parameter::UnsignedInteger(value) => unsigned_text(*value as u64),
            Parameter::Boolean(value) => bool_to_string(*value),
            Parameter::String(held) => held.clone(),
            Parameter::Float(value) => scalar_text(*value),
            Parameter::Position(x, y) => {
                let first = scalar_text(*x);
                let second = scalar_text(*y);
                let text = join_position(first.as_str(), second.as_str());
                assert(position_written(scalar_text, Position(*x, *y), (first@, second@)));
                text
            },
            Parameter::PositionList(list) => {
                let mut fields: Vec<(String, String)> = Vec::new();
                let mut at: usize = 0;
                while at < list.0.len()
                    invariant
                        at <= list.0@.len(),
                        fields@.len() == at,
                        forall|value: Scalar| call_requires(scalar_text, (value,)),
                        forall|i: int|
                            0 <= i < at ==> position_written(
                                scalar_text,
                                list.0@[i],
                                #[trigger] owned_pairs(fields@)[i],
                            ),
                    decreases list.0@.len() - at,
                {
                    let first = scalar_text(list.0[at].0);
                    let second = scalar_text(list.0[at].1);
                    let ghost before = fields@;
                    fields.push((first, second));
                    proof {
                        assert forall|i: int| 0 <= i < at + 1 implies position_written(
                            scalar_text,
                            list.0@[i],
                            #[trigger] owned_pairs(fields@)[i],
                        ) by {
                            if i < at {
                                assert(owned_pairs(fields@)[i] == owned_pairs(before)[i]);
                            }
                        }
                    }
                    at += 1;
                }
                let text = join_position_list(&fields);
                assert(owned_pairs(fields@).len() == list.0@.len());
                text
            },
        }
    }
}

} // verus!
