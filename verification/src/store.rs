//! The tensors that a model file left on the device, and how each is taken.

use crate::bytes::{f32_from_bf16_bytes, f32_from_bytes, widened_bf16, words_of};
use crate::device::DevicePtr;
use crate::moe::ResidentMat;
use vstd::prelude::*;

verus! {

/// How a tensor's values are stored.
#[derive(Clone, Copy, Debug, PartialEq, Eq, Structural)]
pub enum WeightDtype {
    BF16,
    FP32,
    Q2K,
    Q3K,
    /// any other format
    Other,
}

/// One tensor on the device.
#[derive(Debug)]
pub struct TensorInfo {
    pub name: String,
    pub dtype: WeightDtype,
    pub ptr: DevicePtr,
    /// how many values it has
    pub elements: usize,
    /// how many bytes they take
    pub bytes: usize,
}

/// The tensors of a model, and the names of those that stay on disk.
#[derive(Debug)]
pub struct WeightStore {
    pub tensors: Vec<TensorInfo>,
    pub deferred: Vec<String>,
}

/// Why a model is not loaded.
#[derive(Clone, Debug, PartialEq, Eq)]
pub enum LoadError {
    /// there is no tensor of that name
    Missing { name: String },
    /// a tensor that has to be bf16 is not
    NotBf16 { name: String, dtype: WeightDtype },
    /// a tensor is neither bf16 nor in the blocks that the kernels read
    NotResident { name: String, dtype: WeightDtype },
    /// a tensor cannot be widened to f32
    NotWidenable { name: String, dtype: WeightDtype },
    /// a tensor has another number of values than it should
    Elements { name: String, held: usize, expected: usize },
    /// the number of streams is not supported
    HcMult { hc_mult: usize },
    /// the routed experts were not left on disk
    NotDeferred,
    /// the expert stacks and the configuration disagree
    Experts { held: usize, expected: usize },
    /// there is not one compression ratio per layer
    Ratios { held: usize, layers: usize },
    /// no layer has compressor, or none has indexer tensors
    NoSources,
    /// the engram vectors of a layer have another number of values
    EngramQk { layer: usize, q: usize, k: usize, expected: usize },
    /// the correction bias of a layer is for another number of experts
    GateBias { layer: usize, held: usize },
}

/// What a [`LoadError`] says.
pub enum LoadErrorView {
    Missing { name: Seq<char> },
    NotBf16 { name: Seq<char>, dtype: WeightDtype },
    NotResident { name: Seq<char>, dtype: WeightDtype },
    NotWidenable { name: Seq<char>, dtype: WeightDtype },
    Elements { name: Seq<char>, held: usize, expected: usize },
    HcMult { hc_mult: usize },
    NotDeferred,
    Experts { held: usize, expected: usize },
    Ratios { held: usize, layers: usize },
    NoSources,
    EngramQk { layer: usize, q: usize, k: usize, expected: usize },
    GateBias { layer: usize, held: usize },
}

impl View for LoadError {
    type V = LoadErrorView;

    open spec fn view(&self) -> LoadErrorView {
        match *self {
            LoadError::Missing { name } => LoadErrorView::Missing { name: name@ },
            LoadError::NotBf16 { name, dtype } => LoadErrorView::NotBf16 { name: name@, dtype },
            LoadError::NotResident { name, dtype } => LoadErrorView::NotResident { name: name@, dtype },
            LoadError::NotWidenable { name, dtype } => LoadErrorView::NotWidenable { name: name@, dtype },
            LoadError::Elements { name, held, expected } => LoadErrorView::Elements { name: name@, held, expected },
            LoadError::HcMult { hc_mult } => LoadErrorView::HcMult { hc_mult },
            LoadError::NotDeferred => LoadErrorView::NotDeferred,
            LoadError::Experts { held, expected } => LoadErrorView::Experts { held, expected },
            LoadError::Ratios { held, layers } => LoadErrorView::Ratios { held, layers },
            LoadError::NoSources => LoadErrorView::NoSources,
            LoadError::EngramQk { layer, q, k, expected } => LoadErrorView::EngramQk { layer, q, k, expected },
            LoadError::GateBias { layer, held } => LoadErrorView::GateBias { layer, held },
        }
    }
}

/// The first tensor of a name.
pub open spec fn found(tensors: Seq<TensorInfo>, name: Seq<char>) -> Option<TensorInfo>
    decreases tensors.len(),
{
    if tensors.len() == 0 {
        None
    } else if tensors[0].name@ == name {
        Some(tensors[0])
    } else {
        found(tensors.skip(1), name)
    }
}

impl WeightStore {
    /// The tensor of a name.
    pub open spec fn tensor(&self, name: Seq<char>) -> Option<TensorInfo> {
        found(self.tensors@, name)
    }

    /// A tensor of that name is left on disk.
    pub open spec fn is_deferred(&self, name: Seq<char>) -> bool {
        exists|i: int| 0 <= i < self.deferred@.len() && (#[trigger] self.deferred@[i])@ == name
    }

    /// The tensor of a name.
    pub fn get(&self, name: &String) -> (r: Option<&TensorInfo>)
        ensures
            match self.tensor(name@) {
                Some(t) => r is Some && *(r->0) == t && t.name@ == name@,
                None => r is None,
            },
    {
        let n: usize = self.tensors.len();
        assert(self.tensors@.skip(0) =~= self.tensors@);
        for i in 0..n
            invariant
                n == self.tensors@.len(),
                found(self.tensors@, name@) == found(self.tensors@.skip(i as int), name@),
        {
            proof {
                let rest: Seq<TensorInfo> = self.tensors@.skip(i as int);
                assert(rest[0] == self.tensors@[i as int]);
                assert(rest.skip(1) =~= self.tensors@.skip(i + 1));
            }
            if self.tensors[i].name == *name {
                return Some(&self.tensors[i]);
            }
        }
        None
    }

    /// There is a tensor of a name.
    pub fn contains(&self, name: &String) -> (r: bool)
        ensures
            r == self.tensor(name@) is Some,
    {
        self.get(name).is_some()
    }

    /// A tensor of that name is left on disk.
    pub fn leaves_on_disk(&self, name: &String) -> (r: bool)
        ensures
            r == self.is_deferred(name@),
    {
        let n: usize = self.deferred.len();
        for i in 0..n
            invariant
                n == self.deferred@.len(),
                forall|j: int| 0 <= j < i ==> (#[trigger] self.deferred@[j])@ != name@,
        {
            if self.deferred[i] == *name {
                return true;
            }
        }
        false
    }
}

/// The address of a tensor that has to be bf16.
pub fn bf16_ptr(store: &WeightStore, name: &String) -> (r: Result<DevicePtr, LoadError>)
    ensures
        match store.tensor(name@) {
            None => r is Err && (r->Err_0)@ == (LoadErrorView::Missing { name: name@ }),
            Some(t) => if t.dtype == WeightDtype::BF16 {
                r == Ok::<DevicePtr, LoadError>(t.ptr)
            } else {
                r is Err && (r->Err_0)@ == (LoadErrorView::NotBf16 { name: name@, dtype: t.dtype })
            },
        },
{
    match store.get(name) {
        None => Err(LoadError::Missing { name: name.clone() }),
        Some(t) => match t.dtype {
            WeightDtype::BF16 => Ok(t.ptr),
            d => Err(LoadError::NotBf16 { name: name.clone(), dtype: d }),
        },
    }
}

/// The matrix that a tensor's format makes of it.
pub open spec fn mat_of(dtype: WeightDtype, ptr: DevicePtr) -> Option<ResidentMat> {
    match dtype {
        WeightDtype::BF16 => Some(ResidentMat::Bf16(ptr)),
        WeightDtype::Q2K => Some(ResidentMat::Q2K(ptr)),
        WeightDtype::Q3K => Some(ResidentMat::Q3K(ptr)),
        _ => None,
    }
}

/// A resident projection as the model file left it: bf16, or Q2_K or Q3_K
/// blocks.
pub fn resident_mat(store: &WeightStore, name: &String) -> (r: Result<ResidentMat, LoadError>)
    ensures
        match store.tensor(name@) {
            None => r is Err && (r->Err_0)@ == (LoadErrorView::Missing { name: name@ }),
            Some(t) => match mat_of(t.dtype, t.ptr) {
                Some(m) => r == Ok::<ResidentMat, LoadError>(m),
                None => r is Err && (r->Err_0)@ == (LoadErrorView::NotResident { name: name@, dtype: t.dtype }),
            },
        },
{
    match store.get(name) {
        None => Err(LoadError::Missing { name: name.clone() }),
        Some(t) => match t.dtype {
            WeightDtype::BF16 => Ok(ResidentMat::Bf16(t.ptr)),
            WeightDtype::Q2K => Ok(ResidentMat::Q2K(t.ptr)),
            WeightDtype::Q3K => Ok(ResidentMat::Q3K(t.ptr)),
            d => Err(LoadError::NotResident { name: name.clone(), dtype: d }),
        },
    }
}

/// What is to be read back to have a tensor's values as f32 on the host.
#[derive(Clone, Copy, Debug, PartialEq, Eq, Structural)]
pub struct Download {
    pub ptr: DevicePtr,
    pub bytes: usize,
    pub dtype: WeightDtype,
    pub elements: usize,
}

/// What is to be read back of a tensor, where it can be widened.
pub open spec fn download_of(t: TensorInfo) -> Option<Download> {
    match t.dtype {
        WeightDtype::BF16 => Some(
            Download { ptr: t.ptr, bytes: (t.elements * 2) as usize, dtype: t.dtype, elements: t.elements },
        ),
        WeightDtype::FP32 => Some(
            Download { ptr: t.ptr, bytes: (t.elements * 4) as usize, dtype: t.dtype, elements: t.elements },
        ),
        WeightDtype::Q2K => Some(
            Download { ptr: t.ptr, bytes: t.bytes, dtype: t.dtype, elements: t.elements },
        ),
        WeightDtype::Q3K => Some(
            Download { ptr: t.ptr, bytes: t.bytes, dtype: t.dtype, elements: t.elements },
        ),
        WeightDtype::Other => None,
    }
}

/// What is to be read back to have a tensor's values as f32 on the host.
pub fn download_f32(store: &WeightStore, name: &String) -> (r: Result<Download, LoadError>)
    requires
        store.tensor(name@) matches Some(t) ==> t.elements * 4 <= usize::MAX,
    ensures
        match store.tensor(name@) {
            None => r is Err && (r->Err_0)@ == (LoadErrorView::Missing { name: name@ }),
            Some(t) => match download_of(t) {
                Some(d) => r == Ok::<Download, LoadError>(d),
                None => r is Err && (r->Err_0)@ == (LoadErrorView::NotWidenable { name: name@, dtype: t.dtype }),
            },
        },
{
    match store.get(name) {
        None => Err(LoadError::Missing { name: name.clone() }),
        Some(t) => match t.dtype {
            WeightDtype::BF16 => Ok(
                Download { ptr: t.ptr, bytes: t.elements * 2, dtype: t.dtype, elements: t.elements },
            ),
            WeightDtype::FP32 => Ok(
                Download { ptr: t.ptr, bytes: t.elements * 4, dtype: t.dtype, elements: t.elements },
            ),
            WeightDtype::Q2K => Ok(Download { ptr: t.ptr, bytes: t.bytes, dtype: t.dtype, elements: t.elements }),
            WeightDtype::Q3K => Ok(Download { ptr: t.ptr, bytes: t.bytes, dtype: t.dtype, elements: t.elements }),
            WeightDtype::Other => Err(LoadError::NotWidenable { name: name.clone(), dtype: t.dtype }),
        },
    }
}

/// The f32 values, by bit pattern, of what was read back; `None` of blocks,
/// which take a decoder.
pub fn widen(d: &Download, bytes: &[u8]) -> (r: Option<Vec<u32>>)
    ensures
        d.dtype == WeightDtype::BF16 ==> r is Some && (r->0)@ == widened_bf16(bytes@),
        d.dtype == WeightDtype::FP32 ==> r is Some && (r->0)@ == words_of(bytes@),
        d.dtype != WeightDtype::BF16 && d.dtype != WeightDtype::FP32 ==> r is None,
        d.dtype == WeightDtype::BF16 && bytes@.len() == 2 * d.elements ==> (r->0)@.len() == d.elements,
        d.dtype == WeightDtype::FP32 && bytes@.len() == 4 * d.elements ==> (r->0)@.len() == d.elements,
{
    match d.dtype {
        WeightDtype::BF16 => Some(f32_from_bf16_bytes(bytes)),
        WeightDtype::FP32 => Some(f32_from_bytes(bytes)),
        _ => None,
    }
}

/// Whether a tensor has as many values as it should.
pub fn check_elements(name: &String, held: usize, expected: usize) -> (r: Result<(), LoadError>)
    ensures
        held == expected ==> r is Ok,
        held != expected ==> r is Err && (r->Err_0)@ == (LoadErrorView::Elements { name: name@, held, expected }),
{
    if held == expected {
        Ok(())
    } else {
        Err(LoadError::Elements { name: name.clone(), held, expected })
    }
}

} // verus!
