//! The last thing that went wrong, kept for a report.
use vstd::prelude::*;

verus! {

const KIND_CAPACITY: usize = 32;

const DETAIL_CAPACITY: usize = 96;

/// What went wrong, when, and where. The texts are cut to their fields and hold nothing but
/// printable ASCII.
#[derive(Clone, Copy)]
pub struct Snapshot {
    pub present: bool,
    pub tick: u64,
    pub vector: u64,
    pub error_code: u64,
    pub instruction_pointer: u64,
    pub fault_address: u64,
    pub cpu_flags: u64,
    kind: [u8; KIND_CAPACITY],
    kind_len: u8,
    detail: [u8; DETAIL_CAPACITY],
    detail_len: u8,
}

/// What a record says.
pub struct Record {
    pub present: bool,
    pub tick: u64,
    pub vector: u64,
    pub error_code: u64,
    pub instruction_pointer: u64,
    pub fault_address: u64,
    pub cpu_flags: u64,
    pub kind: Seq<u8>,
    pub detail: Seq<u8>,
}

impl View for Snapshot {
    type V = Record;

    closed spec fn view(&self) -> Record {
        Record {
            present: self.present,
            tick: self.tick,
            vector: self.vector,
            error_code: self.error_code,
            instruction_pointer: self.instruction_pointer,
            fault_address: self.fault_address,
            cpu_flags: self.cpu_flags,
            kind: self.kind@.take(self.kind_len as int),
            detail: self.detail@.take(self.detail_len as int),
        }
    }
}

/// The byte itself where it is printable, and a question mark where it is not.
pub open spec fn printable(byte: u8) -> u8 {
    if 0x20 <= byte <= 0x7e {
        byte
    } else {
        0x3f
    }
}

/// As much of a text as fits into `capacity` bytes, made printable.
pub open spec fn fitted(source: Seq<u8>, capacity: nat) -> Seq<u8> {
    let kept = if source.len() < capacity {
        source.len()
    } else {
        capacity
    };
    Seq::new(kept, |i: int| printable(source[i]))
}

impl Snapshot {
    pub closed spec fn wf(&self) -> bool {
        self.kind_len <= 32 && self.detail_len <= 96
    }

    /// The record of nothing.
    pub fn empty() -> (r: Self)
        ensures
            r.wf(),
            r@ == (Record {
                present: false,
                tick: 0,
                vector: 0,
                error_code: 0,
                instruction_pointer: 0,
                fault_address: 0,
                cpu_flags: 0,
                kind: Seq::empty(),
                detail: Seq::empty(),
            }),
    {
        let record = Snapshot {
            present: false,
            tick: 0,
            vector: 0,
            error_code: 0,
            instruction_pointer: 0,
            fault_address: 0,
            cpu_flags: 0,
            kind: [0; KIND_CAPACITY],
            kind_len: 0,
            detail: [0; DETAIL_CAPACITY],
            detail_len: 0,
        };
        assert(record@.kind =~= Seq::empty());
        assert(record@.detail =~= Seq::empty());
        record
    }

    pub fn kind(&self) -> (r: &[u8])
        requires
            self.wf(),
        ensures
            r@ == self@.kind,
    {
        let used: &[u8] = &self.kind[0..self.kind_len as usize];
        assert(used@ =~= self@.kind);
        used
    }

    pub fn detail(&self) -> (r: &[u8])
        requires
            self.wf(),
        ensures
            r@ == self@.detail,
    {
        let used: &[u8] = &self.detail[0..self.detail_len as usize];
        assert(used@ =~= self@.detail);
        used
    }
}

/// Records a panic of the kernel's own code; `ticks` is the time.
pub fn record_rust_panic(last: &mut Snapshot, detail: &str, ticks: u64)
    ensures
        final(last).wf(),
        final(last)@ == (Record {
            present: true,
            tick: ticks,
            vector: 0,
            error_code: 0,
            instruction_pointer: 0,
            fault_address: 0,
            cpu_flags: 0,
            kind: fitted(vstd::utf8::encode_utf8("Rust panic"@), 32),
            detail: fitted(vstd::utf8::encode_utf8(detail@), 96),
        }),
{
    record(last, "Rust panic", detail.as_bytes(), 0, 0, 0, 0, 0, ticks);
}

/// Records an exception of the processor; `ticks` is the time.
pub fn record_exception(
    last: &mut Snapshot,
    kind: &str,
    vector: u64,
    error_code: u64,
    instruction_pointer: u64,
    fault_address: u64,
    cpu_flags: u64,
    ticks: u64,
)
    ensures
        final(last).wf(),
        final(last)@ == (Record {
            present: true,
            tick: ticks,
            vector,
            error_code,
            instruction_pointer,
            fault_address,
            cpu_flags,
            kind: fitted(vstd::utf8::encode_utf8(kind@), 32),
            detail: fitted(vstd::utf8::encode_utf8("CPU exception captured"@), 96),
        }),
{
    record(
        last,
        kind,
        "CPU exception captured".as_bytes(),
        vector,
        error_code,
        instruction_pointer,
        fault_address,
        cpu_flags,
        ticks,
    );
}

/// The last record.
pub fn snapshot(last: &Snapshot) -> (r: Snapshot)
    ensures
        r == *last,
{
    *last
}

fn record(
    last: &mut Snapshot,
    kind: &str,
    detail: &[u8],
    vector: u64,
    error_code: u64,
    instruction_pointer: u64,
    fault_address: u64,
    cpu_flags: u64,
    ticks: u64,
)
    ensures
        final(last).wf(),
        final(last)@ == (Record {
            present: true,
            tick: ticks,
            vector,
            error_code,
            instruction_pointer,
            fault_address,
            cpu_flags,
            kind: fitted(vstd::utf8::encode_utf8(kind@), 32),
            detail: fitted(detail@, 96),
        }),
{
    let mut kind_field: [u8; KIND_CAPACITY] = [0; KIND_CAPACITY];
    let mut detail_field: [u8; DETAIL_CAPACITY] = [0; DETAIL_CAPACITY];
    let kind_len: usize = copy_ascii(kind.as_bytes(), &mut kind_field);
    let detail_len: usize = copy_ascii(detail, &mut detail_field);
    *last =
    Snapshot {
        present: true,
        tick: ticks,
        vector,
        error_code,
        instruction_pointer,
        fault_address,
        cpu_flags,
        kind: kind_field,
        kind_len: kind_len as u8,
        detail: detail_field,
        detail_len: detail_len as u8,
    };
}

/// Copies as much of `source` as fits, made printable, and says how much that was.
fn copy_ascii(source: &[u8], destination: &mut [u8]) -> (len: usize)
    ensures
        final(destination)@.len() == old(destination)@.len(),
        len == fitted(source@, old(destination)@.len()).len(),
        final(destination)@.take(len as int) == fitted(source@, old(destination)@.len()),
        final(destination)@.skip(len as int) == old(destination)@.skip(len as int),
{
    let ghost before = destination@;
    let mut len: usize = 0;
    while len < source.len() && len < destination.len()
        invariant
            before.len() == destination@.len(),
            len <= source@.len(),
            len <= before.len(),
            forall|i: int| 0 <= i < len ==> #[trigger] destination@[i] == printable(source@[i]),
            forall|i: int| len <= i < before.len() ==> #[trigger] destination@[i] == before[i],
        decreases source@.len() - len,
    {
        let byte: u8 = source[len];
        destination[len] = if 0x20 <= byte && byte <= 0x7e {
            byte
        } else {
            0x3f
        };
        len = len + 1;
    }
    assert(destination@.take(len as int) =~= fitted(source@, before.len()));
    assert(destination@.skip(len as int) =~= before.skip(len as int));
    len
}

/// A record's texts are printable, and fit into their fields.
pub proof fn law_records_are_printable(source: Seq<u8>, capacity: nat, i: int)
    requires
        0 <= i < fitted(source, capacity).len(),
    ensures
        0x20 <= fitted(source, capacity)[i] <= 0x7e,
        fitted(source, capacity).len() <= capacity,
{
}

/// A text is kept as it is where it is printable and fits; of a longer one the start is kept, and
/// a question mark stands for each byte that is not printable.
pub proof fn law_texts_are_kept_as_they_fit(source: Seq<u8>, capacity: nat, i: int)
    ensures
        source.len() <= capacity ==> fitted(source, capacity).len() == source.len(),
        source.len() > capacity ==> fitted(source, capacity).len() == capacity,
        0 <= i < fitted(source, capacity).len() ==> fitted(source, capacity)[i] == if 0x20
            <= source[i] <= 0x7e {
            source[i]
        } else {
            0x3f
        },
{
}

} // verus!
