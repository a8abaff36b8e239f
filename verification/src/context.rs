//! The messages exchanged with the caller: data descriptions, the operator
//! expressions built over them and the replies to a data request.
use vstd::prelude::*;

verus! {

/// What `decrease_in_use` answers when the data is not in use.
pub const NOT_IN_USE: &'static str = "[context::ObliData::decrease_in_use()] data isn't in use !!!";

/// The reply that names the operator that was started.
pub struct RetObj {
    pub obli_op_id: i32,
}

/// The description of one piece of data: where it lies, whether its
/// contents are ready, and how many pending operators still read it.
pub struct ObliData {
    pub name: String,
    pub id: String,
    pub addr: i64,
    pub length: i64,
    pub prepared: bool,
    pub in_use: i32,
}

impl Clone for ObliData {
    fn clone(&self) -> (r: Self)
        ensures
            r == *self,
    {
        ObliData {
            name: self.name.clone(),
            id: self.id.clone(),
            addr: self.addr,
            length: self.length,
            prepared: self.prepared,
            in_use: self.in_use,
        }
    }
}

/// The count of readers after one more reader registers; it stays at the
/// largest `i32` once it is there.
pub open spec fn in_use_after_increase(n: i32) -> i32 {
    if n < i32::MAX {
        (n + 1) as i32
    } else {
        n
    }
}

impl ObliData {
    /// Registers one more pending reader of the data.
    pub fn increase_in_use(&mut self)
        ensures
            *final(self) == (ObliData { in_use: in_use_after_increase(old(self).in_use), ..*old(self) }),
    {
        if self.in_use < i32::MAX {
            self.in_use = self.in_use + 1;
        }
    }

    /// Retires one pending reader of the data; refused when no reader is
    /// registered.
    pub fn decrease_in_use(&mut self) -> (r: Result<(), &'static str>)
        ensures
            old(self).in_use > 0 ==> r is Ok && *final(self) == (ObliData {
                in_use: (old(self).in_use - 1) as i32,
                ..*old(self)
            }),
            old(self).in_use <= 0 ==> r == Err::<(), &'static str>(NOT_IN_USE) && *final(self) == *old(self),
    {
        if self.in_use <= 0 {
            return Err(NOT_IN_USE);
        }
        self.in_use = self.in_use - 1;
        Ok(())
    }
}

/// The kind of operator that an expression runs.
#[allow(non_camel_case_types, clippy::upper_case_acronyms)]
pub enum ExprType {
    MOD,
    HASH,
    SORT,
}

/// One operator: it reads `input`, writes `output`, and runs after the
/// expressions in `children`.
pub struct Expression {
    pub id: String,
    pub typ: ExprType,
    pub input: ObliData,
    pub output: ObliData,
    pub children: Vec<Expression>,
}

/// A batch of operator trees, run in order.
pub struct Context {
    pub expressions: Vec<Expression>,
}

/// The requests a caller can make of the library.
pub enum Command {
    DataGet,
}

/// The reply to a request: which request it answers, a note, and whether
/// it succeeded.
pub struct TaCallerInfo {
    pub method: Command,
    pub info: String,
    pub ok: bool,
}

/// Which column of the left and of the right record a join compares.
pub struct JoinKeyInfo {
    pub lpos: u32,
    pub rpos: u32,
}

} // verus!
