//! Checked accounting for processor-owned payload state.

use crate::contract::error::DspError;
use vstd::layout::size_of;
use vstd::prelude::*;

verus! {

/// What a layout that cannot be allocated is rejected with.
pub open spec fn unaddressable() -> DspError {
    DspError::UnsupportedSpec("state layout exceeds addressable memory")
}

/// A running total of state bytes.
///
/// The total is `None` once it no longer fits in `usize`. A single array must
/// also fit in one allocation, which is limited to `isize::MAX` bytes; several
/// arrays together may exceed that.
#[derive(Clone, Copy, Debug)]
pub struct MemoryLayout {
    bytes: Option<usize>,
    components_addressable: bool,
}

/// `total` extended by `arrays` components of `component` bytes each.
pub open spec fn extended(total: Option<usize>, arrays: nat, component: nat) -> Option<usize> {
    if total is None || total->0 + component * arrays > usize::MAX || component > usize::MAX {
        None
    } else {
        Some((total->0 + component * arrays) as usize)
    }
}

/// The outcome of holding a layout against an optional cap.
pub open spec fn admission(total: Option<usize>, addressable: bool, cap: Option<usize>) -> Result<
    usize,
    DspError,
> {
    match total {
        None => if cap is Some && cap->0 < usize::MAX {
            Err(DspError::OverBudget { needed: usize::MAX, cap: cap->0 })
        } else {
            Err(unaddressable())
        },
        Some(needed) => if cap is Some && needed > cap->0 {
            Err(DspError::OverBudget { needed, cap: cap->0 })
        } else if !addressable {
            Err(unaddressable())
        } else {
            Ok(needed)
        },
    }
}

/// A layout as contracts speak of it: the bytes counted so far, and whether
/// every array counted so far fits in one allocation.
pub struct Plan {
    pub total: Option<usize>,
    pub addressable: bool,
}

impl Plan {
    /// The layout with `arrays` more arrays of `elements` elements of `size`
    /// bytes each.
    pub open spec fn arrays(self, arrays: nat, elements: nat, size: nat) -> Plan {
        if arrays == 0 {
            self
        } else {
            Plan {
                total: extended(self.total, arrays, elements * size),
                addressable: self.addressable && elements * size <= isize::MAX,
            }
        }
    }

    /// The layout with one more array.
    pub open spec fn array(self, elements: nat, size: nat) -> Plan {
        self.arrays(1, elements, size)
    }

    /// The bytes counted, or `None` once they exceed `usize`.
    pub open spec fn bytes(self) -> Option<nat> {
        match self.total {
            Some(n) => Some(n as nat),
            None => None,
        }
    }

    /// The outcome of holding the layout against an optional cap.
    pub open spec fn admitted(self, cap: Option<usize>) -> Result<usize, DspError> {
        admission(self.total, self.addressable, cap)
    }

    /// The same outcome without the byte count.
    pub open spec fn verdict(self, cap: Option<usize>) -> Result<(), DspError> {
        match self.admitted(cap) {
            Err(e) => Err(e),
            Ok(_) => Ok(()),
        }
    }
}

/// A layout with nothing in it.
pub open spec fn empty_plan() -> Plan {
    Plan { total: Some(0usize), addressable: true }
}

impl MemoryLayout {
    /// The layout as contracts speak of it.
    pub open spec fn plan(&self) -> Plan {
        Plan { total: self.total(), addressable: self.addressable() }
    }

    /// The bytes counted so far, or `None` once they exceed `usize`.
    pub closed spec fn total(&self) -> Option<usize> {
        self.bytes
    }

    /// Every array counted so far fits in one allocation.
    pub closed spec fn addressable(&self) -> bool {
        self.components_addressable
    }

    /// An empty layout.
    pub fn new() -> (r: Self)
        ensures
            r.plan() == empty_plan(),
    {
        Self { bytes: Some(0), components_addressable: true }
    }

    /// Count one array of `elements` elements of type `T`.
    pub fn array<T>(self, elements: usize) -> (r: Self)
        ensures
            r.plan() == self.plan().array(elements as nat, size_of::<T>()),
    {
        self.repeated_bytes(1, elements.checked_mul(core::mem::size_of::<T>()), Ghost(
            elements as nat * size_of::<T>(),
        ))
    }

    /// Count `arrays` arrays of `elements` elements of type `T` each.
    pub fn repeated_array<T>(self, arrays: usize, elements: usize) -> (r: Self)
        ensures
            r.plan() == self.plan().arrays(arrays as nat, elements as nat, size_of::<T>()),
    {
        if arrays == 0 {
            return self.repeated_bytes(0, Some(0), Ghost(0));
        }
        self.repeated_bytes(arrays, elements.checked_mul(core::mem::size_of::<T>()), Ghost(
            elements as nat * size_of::<T>(),
        ))
    }

    /// Count `arrays` components whose size is `component` where it fits.
    fn repeated_bytes(
        self,
        arrays: usize,
        component: Option<usize>,
        Ghost(exact): Ghost<nat>,
    ) -> (r: Self)
        requires
            component matches Some(n) ==> n == exact,
            component is None ==> exact > usize::MAX,
        ensures
            component is Some || arrays > 0 ==> r.total() == extended(
                self.total(),
                arrays as nat,
                exact,
            ),
            r.addressable() == (self.addressable() && exact <= isize::MAX),
    {
        match component {
            None => {
                assert(exact * (arrays as nat) >= exact || arrays == 0) by (nonlinear_arith);
                Self { bytes: None, components_addressable: false }
            },
            Some(n) => {
                let fits: bool = n <= isize::MAX as usize;
                let bytes: Option<usize> = match (self.bytes, n.checked_mul(arrays)) {
                    (Some(total), Some(additional)) => total.checked_add(additional),
                    _ => None,
                };
                Self { bytes, components_addressable: self.components_addressable && fits }
            },
        }
    }

    /// The required bytes, once the optional cap is enforced.
    ///
    /// A layout whose size does not fit in `usize` cannot be reported exactly:
    /// under a finite cap the reported requirement is `usize::MAX`, otherwise
    /// the layout is rejected as unaddressable.
    pub fn preflight(self, cap: Option<usize>) -> (r: Result<usize, DspError>)
        ensures
            r == self.plan().admitted(cap),
    {
        match self.bytes {
            None => match cap {
                Some(cap) => if cap < usize::MAX {
                    Err(DspError::OverBudget { needed: usize::MAX, cap })
                } else {
                    Err(DspError::UnsupportedSpec("state layout exceeds addressable memory"))
                },
                None => Err(DspError::UnsupportedSpec("state layout exceeds addressable memory")),
            },
            Some(needed) => {
                if let Some(cap) = cap {
                    if needed > cap {
                        return Err(DspError::OverBudget { needed, cap });
                    }
                }
                if !self.components_addressable {
                    return Err(DspError::UnsupportedSpec("state layout exceeds addressable memory"));
                }
                Ok(needed)
            },
        }
    }
}

/// An admitted layout needs exactly the bytes counted and stays within the cap.
pub proof fn admitted_layout_fits(total: Option<usize>, addressable: bool, cap: Option<usize>)
    requires
        admission(total, addressable, cap) is Ok,
    ensures
        total == Some(admission(total, addressable, cap)->Ok_0),
        addressable,
        cap is Some ==> admission(total, addressable, cap)->Ok_0 <= cap->0,
{
}

/// Once a total is lost it stays lost: no later array makes it fit again.
pub proof fn overflow_is_permanent(arrays: nat, component: nat)
    ensures
        extended(None, arrays, component) is None,
{
}

/// A layout counts every byte: arrays add their number times the bytes of one, the total is lost
/// exactly where it exceeds `usize`, and an array that is too long for one allocation shows.
pub proof fn arrays_add_their_bytes(plan: Plan, arrays: nat, elements: nat, size: nat)
    requires
        plan.total is Some,
    ensures
        ({
            let n = plan.total->0 + arrays * (elements * size);
            let after = plan.arrays(arrays, elements, size);
            &&& after.bytes() is Some <==> n <= usize::MAX
            &&& after.bytes() is Some ==> after.bytes()->0 == n
            &&& after.addressable <==> plan.addressable && (arrays > 0 ==> elements * size
                <= isize::MAX)
        }),
{
    let component = elements * size;
    assert(component * arrays == arrays * component) by (nonlinear_arith);
    if arrays == 0 {
        assert(arrays * component == 0) by (nonlinear_arith)
            requires
                arrays == 0,
        ;
    } else {
        assert(arrays * component >= component) by (nonlinear_arith)
            requires
                arrays > 0,
        ;
    }
}

/// A layout is admitted exactly where its total is known, every array fits in one allocation and
/// a cap, if there is one, is not exceeded; a layout over budget is told with what it needs.
pub proof fn layouts_are_admitted_within_the_cap(
    total: Option<usize>,
    addressable: bool,
    cap: Option<usize>,
)
    ensures
        admission(total, addressable, cap) is Ok <==> total is Some && addressable && (cap is Some
            ==> total->0 <= cap->0),
        admission(total, addressable, cap) matches Err(DspError::OverBudget { needed, cap: c }) ==> {
            &&& cap == Some(c)
            &&& c < needed
            &&& total is Some ==> total->0 == needed
        },
        total is Some && cap is Some && cap->0 < total->0 ==> admission(total, addressable, cap)
            == Err::<usize, DspError>(DspError::OverBudget { needed: total->0, cap: cap->0 }),
{
}

/// `n` brought into the range of `usize`.
pub open spec fn saturated(n: nat) -> usize {
    if n > usize::MAX {
        usize::MAX
    } else {
        n as usize
    }
}

/// The product of two counts, at most `usize::MAX`.
pub fn scaled(a: usize, b: usize) -> (r: usize)
    ensures
        r == saturated(a as nat * b as nat),
{
    match a.checked_mul(b) {
        Some(n) => n,
        None => usize::MAX,
    }
}

/// The sum of two counts, at most `usize::MAX`.
pub fn joined(a: usize, b: usize) -> (r: usize)
    ensures
        r == saturated(a as nat + b as nat),
{
    match a.checked_add(b) {
        Some(n) => n,
        None => usize::MAX,
    }
}

/// Bringing a factor or a term into range early does not change where a product
/// or a sum ends.
pub proof fn saturation_is_final(x: nat, y: nat)
    ensures
        saturated(saturated(x) as nat * y) == saturated(x * y),
        saturated(saturated(x) as nat + y) == saturated(x + y),
{
    if x > usize::MAX && y > 0 {
        assert(usize::MAX as nat * y >= usize::MAX) by (nonlinear_arith)
            requires
                y > 0,
        ;
        assert(x * y >= x) by (nonlinear_arith)
            requires
                y > 0,
        ;
    } else if y == 0 {
        assert(x * y == 0 && saturated(x) as nat * y == 0) by (nonlinear_arith)
            requires
                y == 0,
        ;
    }
}

/// The bytes of `elements` elements of type `T`, at most `usize::MAX`.
pub fn bytes_of<T>(elements: usize) -> (r: usize)
    ensures
        r == saturated(elements as nat * size_of::<T>()),
{
    match elements.checked_mul(core::mem::size_of::<T>()) {
        Some(n) => n,
        None => usize::MAX,
    }
}

/// The contents of some vectors.
pub open spec fn rows<T>(vectors: Seq<Vec<T>>) -> Seq<Seq<T>> {
    Seq::new(vectors.len(), |i: int| vectors[i]@)
}

/// A vector of `n` copies of `x`.
pub fn filled<T: Copy>(x: T, n: usize) -> (r: Vec<T>)
    ensures
        r@ == Seq::new(n as nat, |i: int| x),
{
    let mut r: Vec<T> = Vec::with_capacity(n);
    let mut i: usize = 0;
    while i < n
        invariant
            0 <= i <= n,
            r@ =~= Seq::new(i as nat, |i: int| x),
        decreases n - i,
    {
        r.push(x);
        i += 1;
    }
    r
}

/// `rows` vectors of `n` copies of `x`.
pub fn filled_rows<T: Copy>(x: T, n: usize, rows: usize) -> (r: Vec<Vec<T>>)
    ensures
        r@.len() == rows,
        forall|i: int| 0 <= i < rows ==> (#[trigger] r@[i])@ == Seq::new(n as nat, |j: int| x),
{
    let mut r: Vec<Vec<T>> = Vec::with_capacity(rows);
    let mut i: usize = 0;
    while i < rows
        invariant
            0 <= i <= rows,
            r@.len() == i,
            forall|k: int| 0 <= k < i ==> (#[trigger] r@[k])@ == Seq::new(n as nat, |j: int| x),
        decreases rows - i,
    {
        r.push(filled(x, n));
        i += 1;
    }
    r
}

/// Overwrite every element of every row with `x`.
pub fn refill_rows<T: Copy>(rows: &mut Vec<Vec<T>>, x: T)
    ensures
        final(rows)@.len() == old(rows)@.len(),
        forall|i: int|
            0 <= i < final(rows)@.len() ==> (#[trigger] final(rows)@[i])@ == Seq::new(
                old(rows)@[i]@.len(),
                |j: int| x,
            ),
{
    let n: usize = rows.len();
    let mut i: usize = 0;
    while i < n
        invariant
            0 <= i <= n,
            n == old(rows)@.len(),
            rows@.len() == n,
            forall|k: int|
                0 <= k < i ==> (#[trigger] rows@[k])@ == Seq::new(
                    old(rows)@[k]@.len(),
                    |j: int| x,
                ),
            forall|k: int| i <= k < n ==> #[trigger] rows@[k] == old(rows)@[k],
        decreases n - i,
    {
        refill(&mut rows[i], x);
        i += 1;
    }
}

/// Overwrite every element of `v` with `x`.
pub fn refill<T: Copy>(v: &mut Vec<T>, x: T)
    ensures
        final(v)@ == Seq::new(old(v)@.len(), |i: int| x),
{
    let n: usize = v.len();
    let mut i: usize = 0;
    while i < n
        invariant
            0 <= i <= n,
            n == old(v)@.len(),
            v@.len() == n,
            forall|j: int| 0 <= j < i ==> #[trigger] v@[j] == x,
        decreases n - i,
    {
        v.set(i, x);
        i += 1;
    }
    assert(v@ =~= Seq::new(old(v)@.len(), |i: int| x));
}

} // verus!
