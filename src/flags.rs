use vstd::prelude::*;

verus! {

pub const ACC_PUBLIC: u16 = 0x0001;
pub const ACC_PRIVATE: u16 = 0x0002;
pub const ACC_PROTECTED: u16 = 0x0004;
pub const ACC_STATIC: u16 = 0x0008;
pub const ACC_FINAL: u16 = 0x0010;
pub const ACC_SUPER: u16 = 0x0020;
pub const ACC_OPEN: u16 = 0x0020;
pub const ACC_TRANSITIVE: u16 = 0x0020;
pub const ACC_STATIC_PHASE: u16 = 0x0040;
pub const ACC_INTERFACE: u16 = 0x0200;
pub const ACC_ABSTRACT: u16 = 0x0400;
pub const ACC_SYNTHETIC: u16 = 0x1000;
pub const ACC_ANNOTATION: u16 = 0x2000;
pub const ACC_ENUM: u16 = 0x4000;
pub const ACC_MODULE: u16 = 0x8000;
pub const ACC_MANDATED: u16 = 0x8000;

/// PUBLIC, PRIVATE, PROTECTED, STATIC, FINAL, INTERFACE, ABSTRACT, SYNTHETIC, ANNOTATION, ENUM.
pub const INNER_CLASS_FLAGS: u16 = 0x761F;
/// FINAL, SYNTHETIC, MANDATED.
pub const METHOD_PARAMETER_FLAGS: u16 = 0x9010;
/// OPEN, SYNTHETIC, MANDATED.
pub const MODULE_FLAGS: u16 = 0x9020;
/// TRANSITIVE, STATIC_PHASE, SYNTHETIC, MANDATED.
pub const MODULE_REQUIRES_FLAGS: u16 = 0x9060;
/// SYNTHETIC, MANDATED.
pub const MODULE_EXPORTS_FLAGS: u16 = 0x9000;
/// SYNTHETIC, MANDATED.
pub const MODULE_OPENS_FLAGS: u16 = 0x9000;

/// Flags of an inner class entry. Unknown bits are dropped on reading.
#[derive(Clone, Copy, Debug, PartialEq, Eq, Structural)]
pub struct InnerClassAccessFlags {
    pub bits: u16,
}

impl InnerClassAccessFlags {
    pub fn from_bits_truncate(bits: u16) -> (r: Self)
        ensures
            r.bits == bits & INNER_CLASS_FLAGS,
    {
        InnerClassAccessFlags { bits: bits & INNER_CLASS_FLAGS }
    }

    pub fn contains(&self, flag: u16) -> (r: bool)
        ensures
            r == (self.bits & flag == flag),
    {
        self.bits & flag == flag
    }
}

/// Flags of a method parameter. Unknown bits are refused.
#[derive(Clone, Copy, Debug, PartialEq, Eq, Structural)]
pub struct MethodParameterAccessFlags {
    pub bits: u16,
}

impl MethodParameterAccessFlags {
    pub fn from_bits(bits: u16) -> (r: Option<Self>)
        ensures
            r is Some <==> bits & !METHOD_PARAMETER_FLAGS == 0,
            r is Some ==> r->Some_0.bits == bits,
    {
        if bits & !METHOD_PARAMETER_FLAGS == 0 { Some(MethodParameterAccessFlags { bits }) } else { None }
    }

    pub fn contains(&self, flag: u16) -> (r: bool)
        ensures
            r == (self.bits & flag == flag),
    {
        self.bits & flag == flag
    }
}

/// Flags of a module. Unknown bits are refused.
#[derive(Clone, Copy, Debug, PartialEq, Eq, Structural)]
pub struct ModuleAccessFlags {
    pub bits: u16,
}

impl ModuleAccessFlags {
    pub fn from_bits(bits: u16) -> (r: Option<Self>)
        ensures
            r is Some <==> bits & !MODULE_FLAGS == 0,
            r is Some ==> r->Some_0.bits == bits,
    {
        if bits & !MODULE_FLAGS == 0 { Some(ModuleAccessFlags { bits }) } else { None }
    }

    pub fn contains(&self, flag: u16) -> (r: bool)
        ensures
            r == (self.bits & flag == flag),
    {
        self.bits & flag == flag
    }
}

/// Flags of a module's requires entry. Unknown bits are refused.
#[derive(Clone, Copy, Debug, PartialEq, Eq, Structural)]
pub struct ModuleRequiresFlags {
    pub bits: u16,
}

impl ModuleRequiresFlags {
    pub fn from_bits(bits: u16) -> (r: Option<Self>)
        ensures
            r is Some <==> bits & !MODULE_REQUIRES_FLAGS == 0,
            r is Some ==> r->Some_0.bits == bits,
    {
        if bits & !MODULE_REQUIRES_FLAGS == 0 { Some(ModuleRequiresFlags { bits }) } else { None }
    }

    pub fn contains(&self, flag: u16) -> (r: bool)
        ensures
            r == (self.bits & flag == flag),
    {
        self.bits & flag == flag
    }
}

/// Flags of a module's exports entry. Unknown bits are refused.
#[derive(Clone, Copy, Debug, PartialEq, Eq, Structural)]
pub struct ModuleExportsFlags {
    pub bits: u16,
}

impl ModuleExportsFlags {
    pub fn from_bits(bits: u16) -> (r: Option<Self>)
        ensures
            r is Some <==> bits & !MODULE_EXPORTS_FLAGS == 0,
            r is Some ==> r->Some_0.bits == bits,
    {
        if bits & !MODULE_EXPORTS_FLAGS == 0 { Some(ModuleExportsFlags { bits }) } else { None }
    }

    pub fn contains(&self, flag: u16) -> (r: bool)
        ensures
            r == (self.bits & flag == flag),
    {
        self.bits & flag == flag
    }
}

/// Flags of a module's opens entry. Unknown bits are refused.
#[derive(Clone, Copy, Debug, PartialEq, Eq, Structural)]
pub struct ModuleOpensFlags {
    pub bits: u16,
}

impl ModuleOpensFlags {
    pub fn from_bits(bits: u16) -> (r: Option<Self>)
        ensures
            r is Some <==> bits & !MODULE_OPENS_FLAGS == 0,
            r is Some ==> r->Some_0.bits == bits,
    {
        if bits & !MODULE_OPENS_FLAGS == 0 { Some(ModuleOpensFlags { bits }) } else { None }
    }

    pub fn contains(&self, flag: u16) -> (r: bool)
        ensures
            r == (self.bits & flag == flag),
    {
        self.bits & flag == flag
    }
}

} // verus!
