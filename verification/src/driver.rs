//! What the drivers share: how a column of a row is addressed.
use vstd::prelude::*;
use vstd::string::StringExecFns;

use crate::dialect::{decimal, push_decimal};
use crate::error::FromRowError;

verus! {

/// A column of a row, by position or by name.
pub enum RowIndex<'a> {
    Pos(usize),
    Name(&'a str),
}

impl From<usize> for RowIndex<'_> {
    fn from(value: usize) -> (r: Self) {
        RowIndex::Pos(value)
    }
}

impl vstd::std_specs::convert::FromSpecImpl<usize> for RowIndex<'_> {
    open spec fn obeys_from_spec() -> bool {
        true
    }

    open spec fn from_spec(v: usize) -> Self {
        RowIndex::Pos(v)
    }
}

impl<'a> From<&'a str> for RowIndex<'a> {
    fn from(value: &'a str) -> (r: Self) {
        RowIndex::Name(value)
    }
}

impl<'a> vstd::std_specs::convert::FromSpecImpl<&'a str> for RowIndex<'a> {
    open spec fn obeys_from_spec() -> bool {
        true
    }

    open spec fn from_spec(v: &'a str) -> Self {
        RowIndex::Name(v)
    }
}

/// The first position at or after `k` whose column is called `name`.
pub open spec fn first_named(names: Seq<&str>, name: Seq<char>, k: int) -> Option<int>
    decreases names.len() - k,
{
    if k < 0 || k >= names.len() {
        None
    } else if names[k]@ == name {
        Some(k)
    } else {
        first_named(names, name, k + 1)
    }
}

/// The position of the column that `index` addresses among columns called
/// `names`: a position within range, or the first column with that name.
pub open spec fn column_position_spec(names: Seq<&str>, index: RowIndex) -> Option<int> {
    match index {
        RowIndex::Pos(i) => if i < names.len() {
            Some(i as int)
        } else {
            None
        },
        RowIndex::Name(n) => first_named(names, n@, 0),
    }
}

/// The position of the column that `index` addresses among the columns of a
/// row, called `names` in order; [FromRowError::ColumnNotFound] with the
/// position or the name, as text, where there is no such column.
pub fn column_position(names: &[&str], index: RowIndex) -> (r: Result<usize, FromRowError>)
    ensures
        match column_position_spec(names@, index) {
            Some(k) => r == Ok::<usize, FromRowError>(k as usize),
            None => r matches Err(FromRowError::ColumnNotFound(text)) && match index {
                RowIndex::Pos(i) => text@ == decimal(i as nat),
                RowIndex::Name(n) => text@ == n@,
            },
        },
{
    match index {
        RowIndex::Pos(i) => {
            if i < names.len() {
                Ok(i)
            } else {
                let mut text = String::new();
                push_decimal(i, &mut text);
                Err(FromRowError::ColumnNotFound(text))
            }
        },
        RowIndex::Name(n) => {
            let wanted = String::from_str(n);
            let mut k: usize = 0;
            while k < names.len()
                invariant
                    k <= names@.len(),
                    wanted@ == n@,
                    column_position_spec(names@, index) == first_named(names@, n@, 0),
                    index == RowIndex::Name(n),
                    first_named(names@, n@, 0) == first_named(names@, n@, k as int),
                decreases names@.len() - k,
            {
                let candidate = String::from_str(names[k]);
                if candidate.eq(&wanted) {
                    return Ok(k);
                }
                k = k + 1;
            }
            Err(FromRowError::ColumnNotFound(wanted))
        },
    }
}

} // verus!
