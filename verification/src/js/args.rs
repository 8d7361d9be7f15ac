//! The arguments of a call from the guest.

use serde_json::Value;
use vstd::prelude::*;

use crate::host::HostError;
use crate::js::node;
use crate::js::node::NodeError;
use crate::js::transport;
use crate::text;
use crate::vfs::{Errno, VfsError};

verus! {

/// A JSON value, as far as calls look into it.
#[derive(Debug, PartialEq, Eq)]
pub enum ArgValue {
    Null,
    Bool(bool),
    /// A number that is an unsigned integer.
    Unsigned(u64),
    /// A number that is a negative integer.
    Negative(i64),
    Text(String),
    /// Another number, an array or an object.
    Other,
}

/// The fields of the JSON object that a call comes with. Where a name occurs twice the last one
/// counts.
#[derive(Debug)]
pub struct HostArgs {
    pub fields: Vec<(String, ArgValue)>,
}

pub enum ArgView {
    Null,
    Bool(bool),
    Unsigned(u64),
    Negative(i64),
    Text(Seq<char>),
    Other,
}

impl ArgValue {
    pub open spec fn view(&self) -> ArgView {
        match self {
            ArgValue::Null => ArgView::Null,
            ArgValue::Bool(b) => ArgView::Bool(*b),
            ArgValue::Unsigned(n) => ArgView::Unsigned(*n),
            ArgValue::Negative(n) => ArgView::Negative(*n),
            ArgValue::Text(text) => ArgView::Text(text@),
            ArgValue::Other => ArgView::Other,
        }
    }
}

pub open spec fn fields_view(fields: Seq<(String, ArgValue)>) -> Seq<(Seq<char>, ArgView)> {
    fields.map_values(|field: (String, ArgValue)| (field.0@, field.1@))
}

/// The fields of the JSON object that `serde_json::from_str` reads from a text, none for another
/// value, or what is said of a text that is not JSON.
pub uninterp spec fn json_fields(json: Seq<char>) -> Result<Seq<(Seq<char>, ArgView)>, Seq<char>>;

/// Reads a JSON text with `serde_json::from_str` and hands out the fields of the object that it
/// is. They depend on the text alone, and so does what is said of a text that is not JSON.
#[verifier::external_body]
fn parse_fields(json: &str) -> (r: Result<Vec<(String, ArgValue)>, String>)
    ensures
        match r {
            Ok(fields) => json_fields(json@) == Ok::<_, Seq<char>>(fields_view(fields@)),
            Err(message) => json_fields(json@) == Err::<Seq<(Seq<char>, ArgView)>, _>(message@),
        },
{
    let map = match serde_json::from_str(json) {
        Ok(Value::Object(map)) => map,
        Ok(_) => return Ok(Vec::new()),
        Err(err) => return Err(err.to_string()),
    };
    let fields = map.into_iter().map(|(name, value)| (name, match value {
        Value::Null => ArgValue::Null,
        Value::Bool(b) => ArgValue::Bool(b),
        Value::Number(n) => n.as_u64().map(ArgValue::Unsigned)
            .or(n.as_i64().map(ArgValue::Negative)).unwrap_or(ArgValue::Other),
        Value::String(text) => ArgValue::Text(text),
        Value::Array(_) | Value::Object(_) => ArgValue::Other,
    }));
    Ok(fields.collect())
}

/// What is said of a call whose arguments are not JSON.
pub open spec fn invalid_json(message: Seq<char>) -> crate::host::HostErrorView {
    crate::host::HostErrorView {
        message: "invalid host call JSON: "@ + message,
        code: Some("EINVAL"@),
    }
}

pub fn invalid_json_error(message: &str) -> (r: HostError)
    ensures
        r@ == invalid_json(message@),
{
    let said = text::concat2("invalid host call JSON: ", message);
    HostError::new(said.as_str()).with_code("EINVAL")
}

/// Reads the arguments of a call.
pub fn parse_host_args(json: &str) -> (r: Result<HostArgs, HostError>)
    ensures
        match json_fields(json@) {
            Ok(fields) => r matches Ok(args) && fields_view(args.fields@) == fields,
            Err(message) => r matches Err(err) && err@ == invalid_json(message),
        },
{
    match parse_fields(json) {
        Ok(fields) => Ok(HostArgs { fields }),
        Err(message) => Err(invalid_json_error(message.as_str())),
    }
}

/// The place of the last of the first `n` fields with a name.
pub open spec fn field_place(fields: Seq<(String, ArgValue)>, n: int, name: Seq<char>) -> Option<
    int,
>
    decreases n,
{
    if n <= 0 {
        None
    } else if fields[n - 1].0@ == name {
        Some(n - 1)
    } else {
        field_place(fields, n - 1, name)
    }
}

impl HostArgs {
    /// The value of a field, if there is one.
    pub open spec fn field(&self, name: Seq<char>) -> Option<ArgValue> {
        match field_place(self.fields@, self.fields@.len() as int, name) {
            Some(i) => Some(self.fields@[i].1),
            None => None,
        }
    }

    pub fn get(&self, name: &str) -> (r: Option<&ArgValue>)
        ensures
            match r {
                Some(value) => self.field(name@) == Some(*value),
                None => self.field(name@) is None,
            },
    {
        let mut i: usize = self.fields.len();
        while i > 0
            invariant
                i <= self.fields@.len(),
                field_place(self.fields@, self.fields@.len() as int, name@) == field_place(
                    self.fields@,
                    i as int,
                    name@,
                ),
            decreases i,
        {
            if text::str_eq(self.fields[i - 1].0.as_str(), name) {
                return Some(&self.fields[i - 1].1);
            }
            i = i - 1;
        }
        None
    }

    /// The text in a field.
    pub open spec fn text_in(&self, name: Seq<char>) -> Option<Seq<char>> {
        match self.field(name) {
            Some(ArgValue::Text(value)) => Some(value@),
            _ => None,
        }
    }

    /// Whether a field holds `true`.
    pub open spec fn flag_in(&self, name: Seq<char>) -> bool {
        self.field(name) == Some(ArgValue::Bool(true))
    }

    /// The unsigned integer in a field.
    pub open spec fn unsigned_in(&self, name: Seq<char>) -> Option<u64> {
        match self.field(name) {
            Some(ArgValue::Unsigned(n)) => Some(n),
            _ => None,
        }
    }

    /// The integer in a field.
    pub open spec fn integer_in(&self, name: Seq<char>) -> Option<int> {
        match self.field(name) {
            Some(ArgValue::Unsigned(n)) => Some(n as int),
            Some(ArgValue::Negative(n)) => Some(n as int),
            _ => None,
        }
    }

    /// The bytes in a field, which are encoded as a text.
    pub open spec fn bytes_in(&self, name: Seq<char>) -> Option<Seq<u8>> {
        match self.text_in(name) {
            Some(text) => transport::base64_bytes(text),
            None => None,
        }
    }

    pub fn string_arg(&self, name: &str) -> (r: Result<String, NodeError>)
        ensures
            match self.text_in(name@) {
                Some(value) => r matches Ok(v) && v@ == value,
                None => r matches Err(err) && err@ == bad_call(),
            },
    {
        match self.get(name) {
            Some(ArgValue::Text(value)) => Ok(value.clone()),
            _ => Err(bad_call_error()),
        }
    }

    pub fn bool_arg(&self, name: &str) -> (r: bool)
        ensures
            r == self.flag_in(name@),
    {
        match self.get(name) {
            Some(ArgValue::Bool(value)) => *value,
            _ => false,
        }
    }

    pub fn i32_arg(&self, name: &str) -> (r: Result<i32, NodeError>)
        ensures
            match self.integer_in(name@) {
                Some(n) => if i32::MIN <= n <= i32::MAX {
                    r == Ok::<i32, NodeError>(n as i32)
                } else {
                    r matches Err(err) && err@ == bad_call()
                },
                None => r matches Err(err) && err@ == bad_call(),
            },
    {
        match self.get(name) {
            Some(ArgValue::Unsigned(n)) => {
                if *n <= 2147483647 {
                    Ok(*n as i32)
                } else {
                    Err(bad_call_error())
                }
            },
            Some(ArgValue::Negative(n)) => {
                if -2147483648 <= *n && *n <= 2147483647 {
                    Ok(*n as i32)
                } else {
                    Err(bad_call_error())
                }
            },
            _ => Err(bad_call_error()),
        }
    }

    pub fn usize_arg(&self, name: &str) -> (r: Result<usize, NodeError>)
        ensures
            match self.unsigned_in(name@) {
                Some(n) => if n <= usize::MAX {
                    r == Ok::<usize, NodeError>(n as usize)
                } else {
                    r matches Err(err) && err@ == bad_call()
                },
                None => r matches Err(err) && err@ == bad_call(),
            },
    {
        match self.get(name) {
            Some(ArgValue::Unsigned(n)) => {
                if *n <= usize::MAX as u64 {
                    Ok(*n as usize)
                } else {
                    Err(bad_call_error())
                }
            },
            _ => Err(bad_call_error()),
        }
    }

    /// The unsigned integer in a field that may be left out.
    pub fn u64_arg(&self, name: &str) -> (r: Result<Option<u64>, NodeError>)
        ensures
            match self.field(name@) {
                None => r == Ok::<Option<u64>, NodeError>(None),
                Some(ArgValue::Null) => r == Ok::<Option<u64>, NodeError>(None),
                Some(ArgValue::Unsigned(n)) => r == Ok::<Option<u64>, NodeError>(Some(n)),
                Some(_) => r matches Err(err) && err@ == bad_call(),
            },
    {
        match self.get(name) {
            None => Ok(None),
            Some(ArgValue::Null) => Ok(None),
            Some(ArgValue::Unsigned(n)) => Ok(Some(*n)),
            Some(_) => Err(bad_call_error()),
        }
    }

    pub fn bytes_arg(&self, name: &str) -> (r: Result<Vec<u8>, NodeError>)
        ensures
            match self.bytes_in(name@) {
                Some(bytes) => r matches Ok(b) && b@ == bytes,
                None => r matches Err(err) && err@ == bad_call(),
            },
    {
        match self.get(name) {
            Some(ArgValue::Text(value)) => match transport::base64_decode(value.as_str()) {
                Some(bytes) => Ok(bytes),
                None => Err(bad_call_error()),
            },
            _ => Err(bad_call_error()),
        }
    }
}

/// What a call is answered that makes no sense.
pub open spec fn bad_call() -> node::NodeErrorView {
    node::node_failure(Errno::EINVAL, "tinysandbox"@, None)
}

pub fn bad_call_error() -> (r: NodeError)
    ensures
        r@ == bad_call(),
{
    node::node_error(VfsError::new(Errno::EINVAL), "tinysandbox", None)
}

/// Of several fields of one name the last counts, and fields of other names do not matter.
pub proof fn law_the_last_field_counts(
    fields: Seq<(String, ArgValue)>,
    last: (String, ArgValue),
    name: Seq<char>,
)
    ensures
        ({
            let n = fields.len() as int;
            let all = fields.push(last);
            &&& last.0@ == name ==> field_place(all, n + 1, name) == Some(n)
            &&& last.0@ != name ==> field_place(all, n + 1, name) == field_place(fields, n, name)
            &&& field_place(fields, n, name) matches Some(i) ==> 0 <= i < n && fields[i].0@ == name
            &&& field_place(fields, n, name) is None <==> forall|i: int|
                0 <= i < n ==> (#[trigger] fields[i]).0@ != name
        }),
{
    lemma_place_front(fields, last, fields.len() as int, name);
    lemma_place(fields, fields.len() as int, name);
}

proof fn lemma_place_front(
    fields: Seq<(String, ArgValue)>,
    last: (String, ArgValue),
    n: int,
    name: Seq<char>,
)
    requires
        0 <= n <= fields.len(),
    ensures
        field_place(fields.push(last), n, name) == field_place(fields, n, name),
    decreases n,
{
    if n > 0 {
        lemma_place_front(fields, last, n - 1, name);
    }
}

proof fn lemma_place(fields: Seq<(String, ArgValue)>, n: int, name: Seq<char>)
    requires
        0 <= n <= fields.len(),
    ensures
        field_place(fields, n, name) matches Some(i) ==> 0 <= i < n && fields[i].0@ == name,
        field_place(fields, n, name) is None <==> forall|i: int|
            0 <= i < n ==> (#[trigger] fields[i]).0@ != name,
    decreases n,
{
    if n > 0 {
        lemma_place(fields, n - 1, name);
        if field_place(fields, n - 1, name) is Some && fields[n - 1].0@ != name {
            let i = field_place(fields, n - 1, name)->Some_0;
            assert(fields[i].0@ == name);
        }
    }
}

/// A field is read as what it holds, and as nothing else: a number is no text, a text no number,
/// and an unsigned number is a number.
pub proof fn law_fields_are_read_as_what_they_hold(args: HostArgs, name: Seq<char>)
    ensures
        args.text_in(name) is Some ==> args.integer_in(name) is None && !args.flag_in(name),
        args.flag_in(name) ==> args.integer_in(name) is None,
        args.unsigned_in(name) matches Some(n) ==> args.integer_in(name) == Some(n as int),
        args.bytes_in(name) is Some ==> args.text_in(name) is Some,
        args.field(name) is None ==> args.text_in(name) is None && args.integer_in(name) is None
            && !args.flag_in(name),
{
}

} // verus!
