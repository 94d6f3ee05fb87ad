//! Virtual memory areas: the metadata attached to one interval of the
//! guest address space.
use vstd::prelude::*;

verus! {

/// A set of access rights.
#[derive(Clone, Copy, Debug, Default, PartialEq, Eq, Structural)]
pub struct AccessType {
    pub read: bool,
    pub write: bool,
    pub execute: bool,
}

impl AccessType {
    /// `self` grants every right that `other` grants.
    pub open spec fn superset_of(self, other: AccessType) -> bool {
        &&& other.read ==> self.read
        &&& other.write ==> self.write
        &&& other.execute ==> self.execute
    }

    /// The three characters that `/proc` shows for these rights.
    pub open spec fn text(self) -> Seq<u8> {
        seq![
            if self.read { 0x72u8 } else { 0x2du8 },
            if self.write { 0x77u8 } else { 0x2du8 },
            if self.execute { 0x78u8 } else { 0x2du8 },
        ]
    }

    pub fn NoAccess() -> (r: Self)
        ensures
            r == (AccessType { read: false, write: false, execute: false }),
    {
        AccessType { read: false, write: false, execute: false }
    }

    pub fn ReadOnly() -> (r: Self)
        ensures
            r == (AccessType { read: true, write: false, execute: false }),
    {
        AccessType { read: true, write: false, execute: false }
    }

    pub fn ReadWrite() -> (r: Self)
        ensures
            r == (AccessType { read: true, write: true, execute: false }),
    {
        AccessType { read: true, write: true, execute: false }
    }

    pub fn Executable() -> (r: Self)
        ensures
            r == (AccessType { read: true, write: false, execute: true }),
    {
        AccessType { read: true, write: false, execute: true }
    }

    pub fn AnyAccess() -> (r: Self)
        ensures
            r == (AccessType { read: true, write: true, execute: true }),
    {
        AccessType { read: true, write: true, execute: true }
    }

    pub fn Read(&self) -> (r: bool)
        ensures
            r == self.read,
    {
        self.read
    }

    pub fn Write(&self) -> (r: bool)
        ensures
            r == self.write,
    {
        self.write
    }

    pub fn Exec(&self) -> (r: bool)
        ensures
            r == self.execute,
    {
        self.execute
    }

    pub fn Any(&self) -> (r: bool)
        ensures
            r == (self.read || self.write || self.execute),
    {
        self.read || self.write || self.execute
    }

    pub fn SetWrite(&mut self)
        ensures
            *final(self) == (AccessType { write: true, ..*old(self) }),
    {
        self.write = true;
    }

    pub fn ClearWrite(&mut self)
        ensures
            *final(self) == (AccessType { write: false, ..*old(self) }),
    {
        self.write = false;
    }

    pub fn SupersetOf(&self, other: &AccessType) -> (r: bool)
        ensures
            r == self.superset_of(*other),
    {
        (!other.read || self.read) && (!other.write || self.write) && (!other.execute
            || self.execute)
    }

    /// The rights in both sets.
    pub fn Intersect(&self, other: &AccessType) -> (r: AccessType)
        ensures
            r == (AccessType {
                read: self.read && other.read,
                write: self.write && other.write,
                execute: self.execute && other.execute,
            }),
    {
        AccessType {
            read: self.read && other.read,
            write: self.write && other.write,
            execute: self.execute && other.execute,
        }
    }

    /// The rights as `/proc` prints them: `r`, `w`, `x`, or `-` for a right
    /// that is missing.
    pub fn String(&self) -> (r: Vec<u8>)
        ensures
            r@ == self.text(),
    {
        let mut v: Vec<u8> = Vec::new();
        v.push(if self.read { 0x72u8 } else { 0x2du8 });
        v.push(if self.write { 0x77u8 } else { 0x2du8 });
        v.push(if self.execute { 0x78u8 } else { 0x2du8 });
        assert(v@ =~= self.text());
        v
    }
}

/// What `/proc` shows of the object behind a file mapping.
#[derive(Clone, Copy, Debug, PartialEq, Eq)]
pub struct MappingIdentity {
    pub device: u64,
    pub inode: u64,
    pub name: &'static str,
}

impl MappingIdentity {
    pub fn DeviceID(&self) -> (r: u64)
        ensures
            r == self.device,
    {
        self.device
    }

    pub fn InodeID(&self) -> (r: u64)
        ensures
            r == self.inode,
    {
        self.inode
    }

    pub fn MappedName(&self) -> (r: &'static str)
        ensures
            r == self.name,
    {
        self.name
    }
}

/// The metadata of one virtual memory area.
#[derive(Clone, Copy, Debug, PartialEq, Eq)]
pub struct VMA {
    /// Handle of the backing object in the table of mappables; `None` for
    /// anonymous memory.
    pub mappable: Option<u64>,
    /// Offset of the area's first byte inside the backing object.
    pub offset: u64,
    pub fixed: bool,
    pub realPerms: AccessType,
    pub effectivePerms: AccessType,
    pub maxPerms: AccessType,
    /// Writes are private to the address space (copy-on-write).
    pub private: bool,
    pub growsDown: bool,
    /// The area belongs to the guest kernel.
    pub kernel: bool,
    pub hint: &'static str,
    pub id: Option<MappingIdentity>,
}

impl VMA {
    /// `effective ⊆ max` and `real ⊆ max`.
    pub open spec fn perms_ok(self) -> bool {
        self.maxPerms.superset_of(self.effectivePerms) && self.maxPerms.superset_of(
            self.realPerms,
        )
    }

    /// The same area seen from `delta` bytes further on: a file mapping
    /// moves its offset along, anonymous memory has nothing to move.
    pub open spec fn shifted(self, delta: int) -> VMA {
        if self.mappable.is_some() {
            VMA { offset: (self.offset + delta) as u64, ..self }
        } else {
            self
        }
    }

    /// Writes through this area can reach the backing object.
    pub open spec fn can_write_mappable(self) -> bool {
        !self.private && self.maxPerms.write
    }

    /// An anonymous private area with the given rights.
    pub fn Anonymous(perms: AccessType, hint: &'static str) -> (r: VMA)
        ensures
            r == (VMA {
                mappable: None,
                offset: 0,
                fixed: false,
                realPerms: perms,
                effectivePerms: perms,
                maxPerms: AccessType { read: true, write: true, execute: true },
                private: true,
                growsDown: false,
                kernel: false,
                hint,
                id: None,
            }),
    {
        VMA {
            mappable: None,
            offset: 0,
            fixed: false,
            realPerms: perms,
            effectivePerms: perms,
            maxPerms: AccessType::AnyAccess(),
            private: true,
            growsDown: false,
            kernel: false,
            hint,
            id: None,
        }
    }

    /// Whether the area's rights do not exceed its largest rights.
    pub fn PermsOk(&self) -> (r: bool)
        ensures
            r == self.perms_ok(),
    {
        self.maxPerms.SupersetOf(&self.effectivePerms) && self.maxPerms.SupersetOf(&self.realPerms)
    }

    pub fn CanWriteMappableLocked(&self) -> (r: bool)
        ensures
            r == self.can_write_mappable(),
    {
        !self.private && self.maxPerms.write
    }

    /// Splits the metadata of an area that starts at `start` at the address
    /// `split`: the first half keeps it, the second moves its file offset.
    pub fn Split(&self, start: u64, split: u64) -> (r: (VMA, VMA))
        requires
            start <= split,
            self.mappable.is_some() ==> self.offset + (split - start) <= u64::MAX,
        ensures
            r.0 == *self,
            r.1 == self.shifted(split - start),
    {
        let mut second = *self;
        if self.mappable.is_some() {
            second.offset = self.offset + (split - start);
        }
        (*self, second)
    }
}

} // verus!
