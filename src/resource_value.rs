//! The 8-byte typed value attached to attributes and character data.
use vstd::prelude::*;

use crate::codec::{bytes16, bytes32, fits, le16, le32, read_u16, read_u32, read_u8, write_u16, write_u32, write_u8, ByteReader};
use crate::stringpool::StringPool;
use crate::ParseError;
use vstd::string::StringExecFns;

verus! {

/// How the `data` word of a resource value is to be read.
#[derive(Debug, Clone, Copy, PartialEq, Eq, Structural)]
pub enum ResourceValueType {
    Null,
    Reference,
    Attribute,
    String,
    Float,
    Dimension,
    Fraction,
    Dec,
    Hex,
    Boolean,
    ColorArgb8,
    ColorRgb8,
    ColorArgb4,
    ColorRgb4,
}

/// The 8-bit code that stands for `t` on disk.
pub open spec fn code_of(t: ResourceValueType) -> u8 {
    match t {
        ResourceValueType::Null => 0x00,
        ResourceValueType::Reference => 0x01,
        ResourceValueType::Attribute => 0x02,
        ResourceValueType::String => 0x03,
        ResourceValueType::Float => 0x04,
        ResourceValueType::Dimension => 0x05,
        ResourceValueType::Fraction => 0x06,
        ResourceValueType::Dec => 0x10,
        ResourceValueType::Hex => 0x11,
        ResourceValueType::Boolean => 0x12,
        ResourceValueType::ColorArgb8 => 0x1c,
        ResourceValueType::ColorRgb8 => 0x1d,
        ResourceValueType::ColorArgb4 => 0x1e,
        ResourceValueType::ColorRgb4 => 0x1f,
    }
}

/// The value type whose code is `c`, if any.
pub open spec fn type_of_code(c: u8) -> Option<ResourceValueType> {
    if exists|t: ResourceValueType| code_of(t) == c {
        Some(choose|t: ResourceValueType| code_of(t) == c)
    } else {
        None
    }
}

/// The type of a code written for `t` is `t`.
pub proof fn lemma_type_of_code_of(t: ResourceValueType)
    ensures
        type_of_code(code_of(t)) == Some(t),
{
    let c = choose|u: ResourceValueType| code_of(u) == code_of(t);
    assert(code_of(c) == code_of(t) ==> c == t);
}

impl ResourceValueType {
    /// The value type with code `c`, or `None` for an unknown code.
    pub fn from_u8(c: u8) -> (r: Option<ResourceValueType>)
        ensures
            r == type_of_code(c),
    {
        let r = match c {
            0x00 => Some(ResourceValueType::Null),
            0x01 => Some(ResourceValueType::Reference),
            0x02 => Some(ResourceValueType::Attribute),
            0x03 => Some(ResourceValueType::String),
            0x04 => Some(ResourceValueType::Float),
            0x05 => Some(ResourceValueType::Dimension),
            0x06 => Some(ResourceValueType::Fraction),
            0x10 => Some(ResourceValueType::Dec),
            0x11 => Some(ResourceValueType::Hex),
            0x12 => Some(ResourceValueType::Boolean),
            0x1c => Some(ResourceValueType::ColorArgb8),
            0x1d => Some(ResourceValueType::ColorRgb8),
            0x1e => Some(ResourceValueType::ColorArgb4),
            0x1f => Some(ResourceValueType::ColorRgb4),
            _ => None,
        };
        proof {
            match r {
                Some(t) => lemma_type_of_code_of(t),
                None => {
                    assert forall|t: ResourceValueType| code_of(t) != c by {
                        match t {
                            _ => {},
                        }
                    }
                },
            }
        }
        r
    }

    /// The on-disk code of this value type.
    pub fn to_u8(self) -> (r: u8)
        ensures
            r == code_of(self),
    {
        match self {
            ResourceValueType::Null => 0x00,
            ResourceValueType::Reference => 0x01,
            ResourceValueType::Attribute => 0x02,
            ResourceValueType::String => 0x03,
            ResourceValueType::Float => 0x04,
            ResourceValueType::Dimension => 0x05,
            ResourceValueType::Fraction => 0x06,
            ResourceValueType::Dec => 0x10,
            ResourceValueType::Hex => 0x11,
            ResourceValueType::Boolean => 0x12,
            ResourceValueType::ColorArgb8 => 0x1c,
            ResourceValueType::ColorRgb8 => 0x1d,
            ResourceValueType::ColorArgb4 => 0x1e,
            ResourceValueType::ColorRgb4 => 0x1f,
        }
    }
}

/// A typed value: `size` (8 on disk), a reserved byte, the type and the raw data word.
#[derive(Debug, Clone, Copy, PartialEq, Eq, Structural)]
pub struct ResourceValue {
    pub size: u16,
    pub res: u8,
    pub data_type: ResourceValueType,
    pub data: u32,
}

/// The resource value stored at `s[p..p + 8]`: short input fails with `IoError`, an
/// unknown type code with `InvalidFile`.
pub open spec fn spec_resource_value(s: Seq<u8>, p: int) -> Result<ResourceValue, ParseError> {
    if !fits(s, p, 8) {
        Err(ParseError::IoError)
    } else {
        match type_of_code(s[p + 3]) {
            None => Err(ParseError::InvalidFile),
            Some(data_type) => Ok(
                ResourceValue { size: le16(s, p), res: s[p + 2], data_type, data: le32(s, p + 4) },
            ),
        }
    }
}

/// The eight bytes that encode `v`.
pub open spec fn resource_value_bytes(v: ResourceValue) -> Seq<u8> {
    bytes16(v.size) + seq![v.res, code_of(v.data_type)] + bytes32(v.data)
}

impl ResourceValue {
    /// Reads a resource value; see `spec_resource_value`.
    pub fn read_from_file(input: &mut ByteReader) -> (r: Result<ResourceValue, ParseError>)
        ensures
            final(input).data@ == old(input).data@,
            r == spec_resource_value(old(input).data@, old(input).pos as int),
            r is Ok ==> final(input).pos == old(input).pos + 8,
    {
        if !(input.pos < input.data.len() && input.data.len() - input.pos >= 8) {
            return Err(ParseError::IoError);
        }
        let size = read_u16(input)?;
        let res = read_u8(input)?;
        let code = read_u8(input)?;
        let data = read_u32(input)?;
        let data_type = match ResourceValueType::from_u8(code) {
            Some(t) => t,
            None => return Err(ParseError::InvalidFile),
        };
        Ok(ResourceValue { size, res, data_type, data })
    }

    /// Writes the eight bytes of the value and returns their count.
    pub fn write_to_file(&self, output: &mut Vec<u8>) -> (n: usize)
        ensures
            final(output)@ == old(output)@ + resource_value_bytes(*self),
            n == 8,
    {
        write_u16(output, self.size);
        write_u8(output, self.res);
        write_u8(output, self.data_type.to_u8());
        write_u32(output, self.data);
        assert(final(output)@ =~= old(output)@ + resource_value_bytes(*self));
        8
    }
}


/// The decimal digit `d` as a character.
pub open spec fn digit_char(d: nat) -> char {
    if d == 0 {
        '0'
    } else if d == 1 {
        '1'
    } else if d == 2 {
        '2'
    } else if d == 3 {
        '3'
    } else if d == 4 {
        '4'
    } else if d == 5 {
        '5'
    } else if d == 6 {
        '6'
    } else if d == 7 {
        '7'
    } else if d == 8 {
        '8'
    } else {
        '9'
    }
}

/// The decimal numeral of `v`, without sign or leading zeros.
pub open spec fn decimal(v: nat) -> Seq<char>
    decreases v,
{
    if v < 10 {
        seq![digit_char(v)]
    } else {
        decimal(v / 10).push(digit_char(v % 10))
    }
}

/// The hexadecimal digit `d` as a lower-case character.
pub open spec fn hex_digit_char(d: nat) -> char {
    if d < 10 {
        digit_char(d)
    } else if d == 10 {
        'a'
    } else if d == 11 {
        'b'
    } else if d == 12 {
        'c'
    } else if d == 13 {
        'd'
    } else if d == 14 {
        'e'
    } else {
        'f'
    }
}

/// The lower-case hexadecimal numeral of `v`, without prefix or leading zeros.
pub open spec fn hexadecimal(v: nat) -> Seq<char>
    decreases v,
{
    if v < 16 {
        seq![hex_digit_char(v)]
    } else {
        hexadecimal(v / 16).push(hex_digit_char(v % 16))
    }
}

/// Relies on std's `LowerHex` for `u32` (through `format!("{:x}")`): its lower-case
/// hexadecimal numeral, without prefix.
#[verifier::external_body]
fn hex_text(v: u32) -> (r: String)
    ensures
        r@ == hexadecimal(v as nat),
{
    format!("{:x}", v)
}

/// Relies on std's `Display` for `u32` (through `to_string`): its decimal numeral.
#[verifier::external_body]
fn decimal_text(v: u32) -> (r: String)
    ensures
        r@ == decimal(v as nat),
{
    v.to_string()
}

/// The name of a value type, as it is shown for a value that is not rendered as text.
pub open spec fn value_type_name(t: ResourceValueType) -> Seq<char> {
    match t {
        ResourceValueType::Null => "Null"@,
        ResourceValueType::Reference => "Reference"@,
        ResourceValueType::Attribute => "Attribute"@,
        ResourceValueType::String => "String"@,
        ResourceValueType::Float => "Float"@,
        ResourceValueType::Dimension => "Dimension"@,
        ResourceValueType::Fraction => "Fraction"@,
        ResourceValueType::Dec => "Dec"@,
        ResourceValueType::Hex => "Hex"@,
        ResourceValueType::Boolean => "Boolean"@,
        ResourceValueType::ColorArgb8 => "ColorArgb8"@,
        ResourceValueType::ColorRgb8 => "ColorRgb8"@,
        ResourceValueType::ColorArgb4 => "ColorArgb4"@,
        ResourceValueType::ColorRgb4 => "ColorRgb4"@,
    }
}

impl ResourceValueType {
    /// The name of this value type.
    pub fn name(self) -> (r: &'static str)
        ensures
            r@ == value_type_name(self),
    {
        match self {
            ResourceValueType::Null => "Null",
            ResourceValueType::Reference => "Reference",
            ResourceValueType::Attribute => "Attribute",
            ResourceValueType::String => "String",
            ResourceValueType::Float => "Float",
            ResourceValueType::Dimension => "Dimension",
            ResourceValueType::Fraction => "Fraction",
            ResourceValueType::Dec => "Dec",
            ResourceValueType::Hex => "Hex",
            ResourceValueType::Boolean => "Boolean",
            ResourceValueType::ColorArgb8 => "ColorArgb8",
            ResourceValueType::ColorRgb8 => "ColorRgb8",
            ResourceValueType::ColorArgb4 => "ColorArgb4",
            ResourceValueType::ColorRgb4 => "ColorRgb4",
        }
    }
}

/// The text of a value: a string from the pool, a decimal number, a hexadecimal number after `0x`,
/// `true` or `false`, or else the type's name and the raw data word.
pub open spec fn value_text(v: ResourceValue, strings: Seq<Seq<char>>) -> Result<Seq<char>, ParseError> {
    match v.data_type {
        ResourceValueType::String => if v.data != 0xFFFF_FFFF && v.data < strings.len() {
            Ok(strings[v.data as int])
        } else {
            Err(ParseError::StringNotFound(v.data))
        },
        ResourceValueType::Dec => Ok(decimal(v.data as nat)),
        ResourceValueType::Hex => Ok("0x"@ + hexadecimal(v.data as nat)),
        ResourceValueType::Boolean => Ok(if v.data == 0 { "false"@ } else { "true"@ }),
        _ => Ok("ResourceValueType::"@ + value_type_name(v.data_type) + "/"@ + decimal(v.data as nat)),
    }
}

impl ResourceValue {
    /// The value as text; see `value_text`. A string index that the pool lacks fails with
    /// `StringNotFound`.
    pub fn get_value(&self, string_pool: &StringPool) -> (r: Result<String, ParseError>)
        ensures
            match r {
                Ok(t) => value_text(*self, string_pool@.strings) == Ok::<Seq<char>, ParseError>(t@),
                Err(e) => value_text(*self, string_pool@.strings) == Err::<Seq<char>, ParseError>(e),
            },
    {
        match self.data_type {
            ResourceValueType::String => match string_pool.get(self.data as usize) {
                Some(t) => Ok(t.clone()),
                None => Err(ParseError::StringNotFound(self.data)),
            },
            ResourceValueType::Dec => Ok(decimal_text(self.data)),
            ResourceValueType::Hex => {
                let mut s = String::from_str("0x");
                s.append(hex_text(self.data).as_str());
                Ok(s)
            },
            ResourceValueType::Boolean => {
                if self.data == 0 {
                    Ok(String::from_str("false"))
                } else {
                    Ok(String::from_str("true"))
                }
            },
            t => {
                let mut s = String::from_str("ResourceValueType::");
                s.append(t.name());
                s.append("/");
                s.append(decimal_text(self.data).as_str());
                Ok(s)
            },
        }
    }
}

} // verus!
