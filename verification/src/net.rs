//! The network that hears a patch: its weights bundle.
//!
//! A bundle is a sequence of named tensors. Numbers in it are little-endian, and
//! a tensor's values stay what they are in the bundle: the bits of singles.

use crate::text::same_text;
use vstd::prelude::*;
use vstd::utf8::{decode_utf8, valid_utf8};

verus! {

// ---- reading a bundle -----------------------------------------------------------------------

/// The number in two bytes.
pub open spec fn u16_at(b: Seq<u8>, o: int) -> int {
    b[o] + 256 * b[o + 1]
}

/// The number in four bytes.
pub open spec fn u32_at(b: Seq<u8>, o: int) -> int {
    b[o] + 256 * b[o + 1] + 65536 * b[o + 2] + 16777216 * b[o + 3]
}

fn read_u16(b: &[u8], o: usize) -> (r: u16)
    requires
        o + 2 <= b@.len(),
    ensures
        r == u16_at(b@, o as int),
{
    assert(b@.len() == b.len());
    b[o] as u16 + 256 * b[o + 1] as u16
}

/// The number in the four bytes at `o`; moves on to what follows them.
pub fn read_u32(b: &[u8], o: &mut usize) -> (r: u32)
    requires
        *old(o) + 4 <= b@.len(),
    ensures
        r == u32_at(b@, *old(o) as int),
        *final(o) == *old(o) + 4,
{
    assert(b@.len() == b.len());
    let at: usize = *o;
    *o = at + 4;
    b[at] as u32 + 256 * b[at + 1] as u32 + 65536 * b[at + 2] as u32 + 16777216 * b[at + 3] as u32
}

/// `core::str::from_utf8`. Claimed: it accepts exactly the bytes that are UTF-8,
/// and gives the text that they encode.
#[verifier::external_body]
fn utf8_text(b: &[u8]) -> (r: Option<String>)
    ensures
        r is Some <==> valid_utf8(b@),
        r matches Some(s) ==> s@ == decode_utf8(b@),
{
    match core::str::from_utf8(b) {
        Ok(s) => Some(s.to_string()),
        Err(_) => None,
    }
}

/// How many values a tensor of this shape has.
pub open spec fn count(shape: Seq<usize>) -> int
    decreases shape.len(),
{
    if shape.len() == 0 {
        1
    } else {
        count(shape.drop_last()) * shape.last()
    }
}

/// A machine can count the values, dimension by dimension.
pub open spec fn countable(shape: Seq<usize>) -> bool {
    forall|k: int| 0 <= k <= shape.len() ==> count(#[trigger] shape.take(k)) <= usize::MAX
}

/// A named tensor of a bundle.
pub struct Entry {
    pub name: Seq<char>,
    pub shape: Seq<usize>,
    pub data: Seq<u32>,
}

/// What stands at a place in a bundle: an entry and where it ends, or why there
/// is none. An overrun is a bundle that ends before its entries do, or a shape
/// that no machine can count.
pub enum Found {
    Entry(Entry, int),
    BadName,
    Overrun,
}

pub open spec fn shape_at(b: Seq<u8>, o: int, n: int) -> Seq<usize> {
    Seq::new(n as nat, |i: int| u32_at(b, o + 4 * i) as usize)
}

pub open spec fn data_at(b: Seq<u8>, o: int, n: int) -> Seq<u32> {
    Seq::new(n as nat, |i: int| u32_at(b, o + 4 * i) as u32)
}

/// The entry at `o`: the length of the name in two bytes, the name in UTF-8, the
/// number of dimensions in one byte, the dimensions and the values in four bytes
/// each.
pub open spec fn entry_at(b: Seq<u8>, o: int) -> Found {
    let name = o + 2;
    let rank = name + u16_at(b, o);
    let dims = rank + 1;
    let data = dims + 4 * b[rank];
    let shape = shape_at(b, dims, b[rank] as int);
    let end = data + 4 * count(shape);
    if name > b.len() || rank > b.len() {
        Found::Overrun
    } else if !valid_utf8(b.subrange(name, rank)) {
        Found::BadName
    } else if dims > b.len() || data > b.len() || !countable(shape) || end > b.len() {
        Found::Overrun
    } else {
        Found::Entry(
            Entry {
                name: decode_utf8(b.subrange(name, rank)),
                shape,
                data: data_at(b, data, count(shape)),
            },
            end,
        )
    }
}

/// How far a bundle has been read.
pub enum Progress {
    /// These entries were read, and what follows stands there.
    At(Seq<Entry>, int),
    BadMagic,
    BadName,
    Overrun,
}

/// The first `k` entries of a bundle whose entries start at `o`.
pub open spec fn entries_from(b: Seq<u8>, o: int, k: int) -> Progress
    decreases k,
{
    if k <= 0 {
        Progress::At(Seq::empty(), o)
    } else {
        match entries_from(b, o, k - 1) {
            Progress::At(es, p) => match entry_at(b, p) {
                Found::Entry(e, q) => Progress::At(es.push(e), q),
                Found::BadName => Progress::BadName,
                Found::Overrun => Progress::Overrun,
            },
            x => x,
        }
    }
}

/// The bytes that every bundle starts with.
pub open spec fn magic() -> Seq<u8> {
    seq![83, 89, 78, 70]
}

/// A bundle: the magic "SYNF", a version, the number of entries, the entries.
pub open spec fn bundle(b: Seq<u8>) -> Progress {
    if b.len() < 4 {
        Progress::Overrun
    } else if b.take(4) != magic() {
        Progress::BadMagic
    } else if b.len() < 12 {
        Progress::Overrun
    } else {
        entries_from(b, 12, u32_at(b, 8))
    }
}

proof fn lemma_fault_stays(b: Seq<u8>, o: int, k: int, n: int)
    requires
        0 <= k <= n,
        !(entries_from(b, o, k) is At),
    ensures
        entries_from(b, o, n) == entries_from(b, o, k),
    decreases n,
{
    if k < n {
        lemma_fault_stays(b, o, k, n - 1);
    }
}

proof fn lemma_count_bounds(shape: Seq<usize>)
    ensures
        count(shape) >= 0,
    decreases shape.len(),
{
    if shape.len() > 0 {
        lemma_count_bounds(shape.drop_last());
        assert(count(shape.drop_last()) * shape.last() >= 0) by (nonlinear_arith)
            requires
                count(shape.drop_last()) >= 0,
        ;
    }
}

/// Named values: the shape, and the bits of each value, the last dimension side by
/// side.
#[derive(Debug)]
pub struct Tensor {
    pub shape: Vec<usize>,
    pub data: Vec<u32>,
}

/// The tensors of a bundle by name.
#[derive(Debug)]
pub struct Net {
    t: Vec<(String, Tensor)>,
}

/// Why a bundle cannot be used.
#[derive(Clone, Copy, Debug, PartialEq, Eq, Structural)]
pub enum BundleError {
    BadMagic,
    BadName,
}

/// Why reading a bundle stopped.
enum Fault {
    Error(BundleError),
    Overrun,
}

impl Net {
    pub closed spec fn entries(&self) -> Seq<Entry> {
        self.t@.map_values(
            |x: (String, Tensor)| Entry { name: x.0@, shape: x.1.shape@, data: x.1.data@ },
        )
    }
}

/// Reads a shape of `n` dimensions and counts its values.
fn read_shape(b: &[u8], o: usize, n: usize) -> (r: Option<(Vec<usize>, usize)>)
    requires
        o + 4 * n <= b@.len(),
    ensures
        r is Some <==> countable(shape_at(b@, o as int, n as int)),
        r matches Some((s, c)) ==> s@ == shape_at(b@, o as int, n as int) && c == count(s@),
{
    let len: usize = b.len();
    let mut shape: Vec<usize> = Vec::new();
    let mut c: usize = 1;
    let mut at: usize = o;
    let mut i: usize = 0;
    let ghost want = shape_at(b@, o as int, n as int);
    while i < n
        invariant
            i <= n,
            o + 4 * n <= b@.len(),
            len == b@.len(),
            at == o + 4 * i,
            want == shape_at(b@, o as int, n as int),
            shape@ == want.take(i as int),
            c == count(shape@),
            forall|k: int| 0 <= k <= i ==> count(#[trigger] want.take(k)) <= usize::MAX,
        decreases n - i,
    {
        let d: usize = read_u32(b, &mut at) as usize;
        let ghost before = shape@;
        shape.push(d);
        assert(shape@ =~= want.take(i + 1));
        assert(shape@.drop_last() =~= before);
        match c.checked_mul(d) {
            None => {
                assert(count(want.take(i + 1)) > usize::MAX);
                return None;
            },
            Some(p) => {
                c = p;
            },
        }
        i = i + 1;
    }
    assert(shape@ =~= want);
    Some((shape, c))
}

/// Reads `n` values.
fn read_data(b: &[u8], o: usize, n: usize) -> (r: Vec<u32>)
    requires
        o + 4 * n <= b@.len(),
    ensures
        r@ == data_at(b@, o as int, n as int),
{
    let len: usize = b.len();
    let mut data: Vec<u32> = Vec::new();
    let mut at: usize = o;
    let mut i: usize = 0;
    while i < n
        invariant
            i <= n,
            o + 4 * n <= b@.len(),
            len == b@.len(),
            at == o + 4 * i,
            data@ == data_at(b@, o as int, n as int).take(i as int),
        decreases n - i,
    {
        data.push(read_u32(b, &mut at));
        i = i + 1;
        assert(data@ =~= data_at(b@, o as int, n as int).take(i as int));
    }
    assert(data@ =~= data_at(b@, o as int, n as int));
    data
}

/// Reads the entry at `o`.
fn read_entry(b: &[u8], o: usize) -> (r: Result<(String, Tensor, usize), Fault>)
    requires
        o <= b@.len(),
    ensures
        match r {
            Ok((s, t, end)) => {
                &&& end <= b@.len()
                &&& entry_at(b@, o as int) == Found::Entry(
                    Entry { name: s@, shape: t.shape@, data: t.data@ },
                    end as int,
                )
            },
            Err(Fault::Error(e)) => e == BundleError::BadName && entry_at(b@, o as int)
                == Found::BadName,
            Err(Fault::Overrun) => entry_at(b@, o as int) == Found::Overrun,
        },
{
    let len: usize = b.len();
    if len - o < 2 {
        return Err(Fault::Overrun);
    }
    let name_len: usize = read_u16(b, o) as usize;
    let name: usize = o + 2;
    if len - name < name_len {
        return Err(Fault::Overrun);
    }
    let rank: usize = name + name_len;
    let text = utf8_text(vstd::slice::slice_subrange(b, name, rank));
    let s: String = match text {
        None => {
            return Err(Fault::Error(BundleError::BadName));
        },
        Some(s) => s,
    };
    if len - rank < 1 {
        return Err(Fault::Overrun);
    }
    let n_dims: usize = b[rank] as usize;
    let dims: usize = rank + 1;
    if len - dims < 4 * n_dims {
        return Err(Fault::Overrun);
    }
    let data: usize = dims + 4 * n_dims;
    let ghost want = shape_at(b@, dims as int, n_dims as int);
    proof {
        lemma_count_bounds(want);
    }
    match read_shape(b, dims, n_dims) {
        None => Err(Fault::Overrun),
        Some((shape, c)) => {
            if (len - data) / 4 < c {
                return Err(Fault::Overrun);
            }
            let values = read_data(b, data, c);
            Ok((s, Tensor { shape, data: values }, data + 4 * c))
        },
    }
}

/// Reads a bundle.
fn read_bundle(b: &[u8]) -> (r: Result<Net, Fault>)
    ensures
        match r {
            Ok(net) => bundle(b@) matches Progress::At(es, _) && net.entries() == es,
            Err(Fault::Error(BundleError::BadMagic)) => bundle(b@) == Progress::BadMagic,
            Err(Fault::Error(BundleError::BadName)) => bundle(b@) == Progress::BadName,
            Err(Fault::Overrun) => bundle(b@) == Progress::Overrun,
        },
{
    let len: usize = b.len();
    if len < 4 {
        return Err(Fault::Overrun);
    }
    if !(b[0] == 83 && b[1] == 89 && b[2] == 78 && b[3] == 70) {
        assert(b@.take(4) != magic()) by {
            if b@.take(4) == magic() {
                assert(b@.take(4)[0] == 83 && b@.take(4)[1] == 89 && b@.take(4)[2] == 78
                    && b@.take(4)[3] == 70);
            }
        }
        return Err(Fault::Error(BundleError::BadMagic));
    }
    assert(b@.take(4) =~= magic());
    if len < 12 {
        return Err(Fault::Overrun);
    }
    let mut at: usize = 8;
    let n: u32 = read_u32(b, &mut at);
    let mut net = Net { t: Vec::new() };
    let mut k: u32 = 0;
    assert(net.entries() =~= Seq::<Entry>::empty());
    while k < n
        invariant
            k <= n,
            at <= b@.len(),
            n == u32_at(b@, 8),
            bundle(b@) == entries_from(b@, 12, n as int),
            entries_from(b@, 12, k as int) == Progress::At(net.entries(), at as int),
        decreases n - k,
    {
        let ghost before = net.entries();
        match read_entry(b, at) {
            Err(f) => {
                proof {
                    assert(!(entries_from(b@, 12, k + 1) is At));
                    lemma_fault_stays(b@, 12, k + 1, n as int);
                }
                return Err(f);
            },
            Ok((s, t, end)) => {
                net.t.push((s, t));
                at = end;
            },
        }
        k = k + 1;
        assert(net.entries() =~= before.push(net.entries().last()));
    }
    Ok(net)
}

/// Whether a bundle ends before its entries do, or holds a shape that no machine
/// can count.
pub fn overruns(b: &[u8]) -> (r: bool)
    ensures
        r == (bundle(b@) == Progress::Overrun),
{
    match read_bundle(b) {
        Err(Fault::Overrun) => true,
        _ => false,
    }
}

/// The last entry of that name, of the first `k`.
pub open spec fn find_entry(es: Seq<Entry>, name: Seq<char>, k: int) -> Option<Entry>
    decreases k,
{
    if k <= 0 {
        None
    } else if es[k - 1].name == name {
        Some(es[k - 1])
    } else {
        find_entry(es, name, k - 1)
    }
}

impl Tensor {
    /// The tensor holds what the entry says.
    pub open spec fn is_entry(&self, e: Entry) -> bool {
        self.shape@ == e.shape && self.data@ == e.data
    }
}

impl Net {
    /// The tensor of that name: of several, the one that came last.
    pub open spec fn tensor(&self, name: Seq<char>) -> Option<Entry> {
        find_entry(self.entries(), name, self.entries().len() as int)
    }

    /// Reads a bundle.
    pub fn load(b: &[u8]) -> (r: Result<Self, BundleError>)
        requires
            bundle(b@) != Progress::Overrun,
        ensures
            match r {
                Ok(net) => bundle(b@) matches Progress::At(es, _) && net.entries() == es,
                Err(BundleError::BadMagic) => bundle(b@) == Progress::BadMagic,
                Err(BundleError::BadName) => bundle(b@) == Progress::BadName,
            },
    {
        match read_bundle(b) {
            Ok(net) => Ok(net),
            Err(Fault::Error(e)) => Err(e),
            Err(Fault::Overrun) => Err(BundleError::BadMagic),
        }
    }

    /// The tensor of that name; the name, if there is none.
    pub fn get(&self, name: &str) -> (r: Result<&Tensor, String>)
        ensures
            match r {
                Ok(t) => self.tensor(name@) matches Some(e) && t.is_entry(e),
                Err(s) => self.tensor(name@) is None && s@ == name@,
            },
    {
        let mut k: usize = self.t.len();
        while k > 0
            invariant
                k <= self.t@.len(),
                self.tensor(name@) == find_entry(self.entries(), name@, k as int),
            decreases k,
        {
            let (s, t) = &self.t[k - 1];
            assert(self.entries()[k - 1] == Entry { name: s@, shape: t.shape@, data: t.data@ });
            if same_text(s.as_str(), name) {
                return Ok(t);
            }
            k = k - 1;
        }
        Err(name.to_owned())
    }

    /// The mel filter bank.
    pub fn mel_fb(&self) -> (r: Result<&Tensor, String>)
        ensures
            match r {
                Ok(t) => self.tensor("melfb"@) matches Some(e) && t.is_entry(e),
                Err(s) => self.tensor("melfb"@) is None && s@ == "melfb"@,
            },
    {
        self.get("melfb")
    }
}

/// A bundle that was read has as many entries as it says, and every entry as many
/// values as its shape says.
pub proof fn law_bundle_is_complete(b: Seq<u8>, o: int, k: int)
    requires
        entries_from(b, o, k) is At,
        0 <= k,
    ensures
        entries_from(b, o, k)->At_0.len() == k,
        forall|i: int|
            0 <= i < k ==> (#[trigger] entries_from(b, o, k)->At_0[i]).data.len() == count(
                entries_from(b, o, k)->At_0[i].shape,
            ),
    decreases k,
{
    if k > 0 {
        law_bundle_is_complete(b, o, k - 1);
        let es = entries_from(b, o, k - 1)->At_0;
        let p = entries_from(b, o, k - 1)->At_1;
        let e = entry_at(b, p)->Entry_0;
        lemma_count_bounds(e.shape);
        assert forall|i: int| 0 <= i < k implies (#[trigger] entries_from(b, o, k)->At_0[i]).data.len()
            == count(entries_from(b, o, k)->At_0[i].shape) by {
            if i < k - 1 {
                assert(entries_from(b, o, k)->At_0[i] == es[i]);
            }
        }
    }
}

/// Of several tensors of one name the last counts: an entry that is added is found
/// under its name, and what is found under other names stays.
pub proof fn law_later_entry_counts(es: Seq<Entry>, e: Entry, name: Seq<char>)
    ensures
        find_entry(es.push(e), name, es.len() as int + 1) == if e.name == name {
            Some(e)
        } else {
            find_entry(es, name, es.len() as int)
        },
{
    lemma_find_prefix(es, e, name, es.len() as int);
}

proof fn lemma_find_prefix(es: Seq<Entry>, e: Entry, name: Seq<char>, k: int)
    requires
        0 <= k <= es.len(),
    ensures
        find_entry(es.push(e), name, k) == find_entry(es, name, k),
    decreases k,
{
    if k > 0 {
        lemma_find_prefix(es, e, name, k - 1);
    }
}

/// A tensor has as many values as the product of its dimensions: one without any has one,
/// and a further dimension multiplies them.
pub proof fn law_shapes_multiply(shape: Seq<usize>, d: usize)
    ensures
        count(Seq::<usize>::empty()) == 1,
        count(shape.push(d)) == count(shape) * d,
{
    assert(shape.push(d).drop_last() =~= shape);
}

/// An entry stands where it says: behind the length of its name in two bytes, low byte first,
/// come the name, the number of dimensions in one byte, the dimensions and then the values,
/// each in four bytes, low byte first; and it ends behind the last of them.
pub proof fn law_entries_stand_where_they_say(b: Seq<u8>, o: int, e: Entry, end: int, i: int)
    requires
        0 <= o,
        entry_at(b, o) == Found::Entry(e, end),
    ensures
        ({
            let n = b[o] + 256 * b[o + 1];
            let r = b[o + 2 + n] as int;
            let dims = o + 3 + n;
            let data = dims + 4 * r;
            &&& valid_utf8(b.subrange(o + 2, o + 2 + n))
            &&& e.name == decode_utf8(b.subrange(o + 2, o + 2 + n))
            &&& e.shape.len() == r
            &&& 0 <= i < r ==> e.shape[i] == (b[dims + 4 * i] + 256 * b[dims + 4 * i + 1] + 65536
                * b[dims + 4 * i + 2] + 16777216 * b[dims + 4 * i + 3]) as usize
            &&& e.data.len() == count(e.shape)
            &&& 0 <= i < e.data.len() ==> e.data[i] == (b[data + 4 * i] + 256 * b[data + 4 * i + 1]
                + 65536 * b[data + 4 * i + 2] + 16777216 * b[data + 4 * i + 3]) as u32
            &&& end == data + 4 * count(e.shape)
            &&& end <= b.len()
        }),
{
    lemma_count_bounds(shape_at(b, o + 3 + u16_at(b, o), b[o + 2 + u16_at(b, o)] as int));
}

/// A bundle is read entry by entry: where it starts with the magic, and each of as many
/// entries as the number behind the version says stands where the one before it ends, from
/// the twelfth byte on, these are what it holds.
pub proof fn law_bundles_are_read_entry_by_entry(b: Seq<u8>, es: Seq<Entry>, at: Seq<int>)
    requires
        b.len() >= 12,
        b[0] == 83 && b[1] == 89 && b[2] == 78 && b[3] == 70,
        es.len() == b[8] + 256 * b[9] + 65536 * b[10] + 16777216 * b[11],
        at.len() == es.len() + 1,
        at[0] == 12,
        forall|k: int|
            0 <= k < es.len() ==> entry_at(b, #[trigger] at[k]) == Found::Entry(es[k], at[k + 1]),
    ensures
        bundle(b) == Progress::At(es, at[es.len() as int]),
{
    assert(b.take(4) =~= magic());
    lemma_entries_run(b, es, at, es.len() as int);
    assert(es.take(es.len() as int) =~= es);
}

proof fn lemma_entries_run(b: Seq<u8>, es: Seq<Entry>, at: Seq<int>, n: int)
    requires
        0 <= n <= es.len(),
        at.len() == es.len() + 1,
        at[0] == 12,
        forall|k: int|
            0 <= k < es.len() ==> entry_at(b, #[trigger] at[k]) == Found::Entry(es[k], at[k + 1]),
    ensures
        entries_from(b, 12, n) == Progress::At(es.take(n), at[n]),
    decreases n,
{
    if n > 0 {
        lemma_entries_run(b, es, at, n - 1);
        assert(entry_at(b, at[n - 1]) == Found::Entry(es[n - 1], at[n - 1 + 1]));
        assert(es.take(n - 1).push(es[n - 1]) =~= es.take(n));
    } else {
        assert(es.take(0) =~= Seq::<Entry>::empty());
    }
}

/// What does not start with the magic is no bundle.
pub proof fn law_bundles_start_with_the_magic(b: Seq<u8>)
    requires
        b.len() >= 4,
    ensures
        bundle(b) == Progress::BadMagic <==> !(b[0] == 83 && b[1] == 89 && b[2] == 78 && b[3] == 70),
{
    if b[0] == 83 && b[1] == 89 && b[2] == 78 && b[3] == 70 {
        assert(b.take(4) =~= magic());
        if b.len() >= 12 {
            lemma_no_late_magic(b, 12, u32_at(b, 8));
        }
    } else if b.take(4) == magic() {
        assert(b.take(4)[0] == 83 && b.take(4)[1] == 89 && b.take(4)[2] == 78 && b.take(4)[3] == 70);
    }
}

proof fn lemma_no_late_magic(b: Seq<u8>, o: int, k: int)
    ensures
        entries_from(b, o, k) != Progress::BadMagic,
    decreases k,
{
    if k > 0 {
        lemma_no_late_magic(b, o, k - 1);
    }
}

/// Of several entries of a name the last counts; where there is one, one is found.
pub proof fn law_the_last_of_a_name_counts(es: Seq<Entry>, name: Seq<char>, i: int)
    requires
        0 <= i < es.len(),
        es[i].name == name,
        forall|k: int| i < k < es.len() ==> (#[trigger] es[k]).name != name,
    ensures
        find_entry(es, name, es.len() as int) == Some(es[i]),
{
    lemma_last_of_a_name(es, name, i, es.len() as int);
}

proof fn lemma_last_of_a_name(es: Seq<Entry>, name: Seq<char>, i: int, k: int)
    requires
        0 <= i < k <= es.len(),
        es[i].name == name,
        forall|k: int| i < k < es.len() ==> (#[trigger] es[k]).name != name,
    ensures
        find_entry(es, name, k) == Some(es[i]),
    decreases k,
{
    if i < k - 1 {
        assert(es[k - 1].name != name);
        lemma_last_of_a_name(es, name, i, k - 1);
    }
}

/// What no entry is called is not found.
pub proof fn law_what_is_not_there_is_not_found(es: Seq<Entry>, name: Seq<char>, k: int)
    requires
        0 <= k <= es.len(),
        forall|i: int| 0 <= i < k ==> (#[trigger] es[i]).name != name,
    ensures
        find_entry(es, name, k) is None,
    decreases k,
{
    if k > 0 {
        assert(es[k - 1].name != name);
        law_what_is_not_there_is_not_found(es, name, k - 1);
    }
}

} // verus!
