use vstd::prelude::*;

verus! {

/// One access-control entry: a permission mask granted to a principal.
///
/// The library stores and round-trips these values; it does not enforce them.
/// Interpreting them is up to the caller.
#[derive(Debug)]
pub enum Access {
    /// No permission (mask `0b000`).
    NoAccess(String),
    Read(String),
    ReadWrite(String),
    ReadWriteExecute(String),
    ReadExecute(String),
    Custom(String, u8),
}

impl Access {
    /// The stored permission byte.
    pub open spec fn bits_spec(&self) -> u8 {
        match self {
            Access::NoAccess(_) => 0b000,
            Access::Read(_) => 0b001,
            Access::ReadWrite(_) => 0b011,
            Access::ReadWriteExecute(_) => 0b111,
            Access::ReadExecute(_) => 0b101,
            Access::Custom(_, b) => *b,
        }
    }

    /// The principal the entry names.
    pub open spec fn principal_spec(&self) -> Seq<char> {
        match self {
            Access::NoAccess(p) => p@,
            Access::Read(p) => p@,
            Access::ReadWrite(p) => p@,
            Access::ReadWriteExecute(p) => p@,
            Access::ReadExecute(p) => p@,
            Access::Custom(p, _) => p@,
        }
    }

    /// The permission byte and the principal.
    pub open spec fn view_pair(&self) -> (u8, Seq<char>) {
        (self.bits_spec(), self.principal_spec())
    }

    /// The permission byte stored for this entry.
    pub fn bits(&self) -> (r: u8)
        ensures
            r == self.bits_spec(),
    {
        match self {
            Access::NoAccess(_) => 0b000,
            Access::Read(_) => 0b001,
            Access::ReadWrite(_) => 0b011,
            Access::ReadWriteExecute(_) => 0b111,
            Access::ReadExecute(_) => 0b101,
            Access::Custom(_, b) => *b,
        }
    }

    /// The principal the entry names.
    pub fn principal(&self) -> (r: &String)
        ensures
            r@ == self.principal_spec(),
    {
        match self {
            Access::NoAccess(p) => p,
            Access::Read(p) => p,
            Access::ReadWrite(p) => p,
            Access::ReadWriteExecute(p) => p,
            Access::ReadExecute(p) => p,
            Access::Custom(p, _) => p,
        }
    }

    /// The entry a stored permission byte stands for: the five canonical masks
    /// get their own variant, any other byte is `Custom`.
    pub fn from_bits(bits: u8, principal: String) -> (r: Access)
        ensures
            r.bits_spec() == bits,
            r.principal_spec() == principal@,
            bits == 0b000 ==> r is NoAccess,
            bits == 0b001 ==> r is Read,
            bits == 0b011 ==> r is ReadWrite,
            bits == 0b111 ==> r is ReadWriteExecute,
            bits == 0b101 ==> r is ReadExecute,
            !(bits == 0b000 || bits == 0b001 || bits == 0b011 || bits == 0b111 || bits == 0b101)
                ==> r is Custom,
    {
        match bits {
            0b000 => Access::NoAccess(principal),
            0b001 => Access::Read(principal),
            0b011 => Access::ReadWrite(principal),
            0b111 => Access::ReadWriteExecute(principal),
            0b101 => Access::ReadExecute(principal),
            b => Access::Custom(principal, b),
        }
    }

    /// A copy of the entry.
    pub fn duplicate(&self) -> (r: Access)
        ensures
            r.view_pair() == self.view_pair(),
            r == *self,
    {
        match self {
            Access::NoAccess(p) => Access::NoAccess(p.clone()),
            Access::Read(p) => Access::Read(p.clone()),
            Access::ReadWrite(p) => Access::ReadWrite(p.clone()),
            Access::ReadWriteExecute(p) => Access::ReadWriteExecute(p.clone()),
            Access::ReadExecute(p) => Access::ReadExecute(p.clone()),
            Access::Custom(p, b) => Access::Custom(p.clone(), *b),
        }
    }
}

} // verus!
