//! A set of non-zero `i32` that lives in a small array while it is small.
//!
//! It stores differences of annotation sets: a positive value is an insertion
//! and a negative value a deletion of the same annotation. A value and its
//! negation never both belong to the set: inserting the negation of a member
//! cancels the member instead.
use vstd::prelude::*;

use fxhash::FxHashSet;

use crate::fx::{fx_set_contains, fx_set_insert, fx_set_len, fx_set_remove, fx_set_to_vec, fx_set_with_capacity};

verus! {

/// Number of values the array form holds.
pub const STACK_LEN: usize = 4;

/// The set, either as an array of four slots (0 marks a free slot) with the
/// number of used slots, or as a hash set.
#[derive(Debug)]
pub enum SmallSetI32 {
    Stack(([i32; 4], u8)),
    Heap(FxHashSet<i32>),
}

/// 1 for a used slot, 0 for a free one.
pub open spec fn nz(x: i32) -> nat {
    if x != 0 {
        1
    } else {
        0
    }
}

/// Number of used slots.
pub open spec fn count_used(s: [i32; 4]) -> nat {
    nz(s[0]) + nz(s[1]) + nz(s[2]) + nz(s[3])
}

/// The values held in the used slots.
pub open spec fn stack_set(s: [i32; 4]) -> Set<i32> {
    Set::new(|x: i32| x != 0 && (x == s[0] || x == s[1] || x == s[2] || x == s[3]))
}

/// No value occupies two slots.
pub open spec fn stack_distinct(s: [i32; 4]) -> bool {
    forall|i: int, j: int| 0 <= i < j < 4 && s[i] != 0 ==> s[i] != s[j]
}

/// The set after inserting `v`: the negation of `v` is cancelled if present,
/// otherwise `v` is added.
pub open spec fn spec_insert(s: Set<i32>, v: i32) -> Set<i32> {
    if s.contains((-v) as i32) {
        s.remove((-v) as i32)
    } else {
        s.insert(v)
    }
}

/// The set holds neither 0 nor `i32::MIN`, and never a value with its
/// negation.
pub open spec fn set_wf(s: Set<i32>) -> bool {
    &&& s.finite()
    &&& !s.contains(0)
    &&& !s.contains(i32::MIN)
    &&& forall|x: i32| #[trigger] s.contains(x) ==> !s.contains((-x) as i32)
}

impl SmallSetI32 {
    pub open spec fn view(&self) -> Set<i32> {
        match self {
            SmallSetI32::Stack((s, _)) => stack_set(*s),
            SmallSetI32::Heap(h) => h@,
        }
    }

    pub open spec fn wf(&self) -> bool {
        &&& set_wf(self.view())
        &&& match self {
            SmallSetI32::Stack((s, size)) => {
                &&& *size == count_used(*s)
                &&& stack_distinct(*s)
            },
            SmallSetI32::Heap(_) => true,
        }
    }

    pub fn new() -> (s: Self)
        ensures
            s.wf(),
            s.view() == Set::<i32>::empty(),
    {
        let s = SmallSetI32::Stack(([0i32; 4], 0));
        proof {
            assert(s.view() =~= Set::<i32>::empty());
        }
        s
    }

    /// Inserts `value`, or cancels its negation if that is present.
    pub fn insert(&mut self, value: i32)
        requires
            old(self).wf(),
            value != 0,
            value != i32::MIN,
        ensures
            final(self).wf(),
            final(self).view() == spec_insert(old(self).view(), value),
    {
        if self.contains(-value) {
            self.remove(-value);
            return;
        }
        let next: Option<SmallSetI32> = match self {
            SmallSetI32::Stack((stack, size)) => {
                match stack_insert(*stack, *size, value) {
                    Some(p) => Some(SmallSetI32::Stack(p)),
                    None => Some(SmallSetI32::Heap(stack_to_heap(*stack, value))),
                }
            },
            SmallSetI32::Heap(set) => {
                fx_set_insert(set, value);
                proof {
                    lemma_set_wf_insert(old(self).view(), value);
                }
                None
            },
        };
        if let Some(n) = next {
            *self = n;
        }
    }

    /// Whether `value` belongs to the set.
    pub fn contains(&self, value: i32) -> (b: bool)
        requires
            self.wf(),
        ensures
            b == self.view().contains(value),
    {
        if value == 0 {
            return false;
        }
        match self {
            SmallSetI32::Stack((stack, size)) => {
                if *size == 0 {
                    return false;
                }
                stack[0] == value || stack[1] == value || stack[2] == value || stack[3] == value
            },
            SmallSetI32::Heap(set) => fx_set_contains(set, value),
        }
    }

    /// Removes `value`.
    pub fn remove(&mut self, value: i32)
        requires
            old(self).wf(),
            value != 0,
        ensures
            final(self).wf(),
            final(self).view() == old(self).view().remove(value),
    {
        let next: Option<SmallSetI32> = match self {
            SmallSetI32::Stack((stack, size)) => {
                if *size == 0 {
                    proof {
                        assert(old(self).view() =~= old(self).view().remove(value));
                    }
                    return;
                }
                let mut st = *stack;
                let mut sz = *size;
                if st[0] == value {
                    st[0] = 0;
                    sz = sz - 1;
                }
                if st[1] == value {
                    st[1] = 0;
                    sz = sz - 1;
                }
                if st[2] == value {
                    st[2] = 0;
                    sz = sz - 1;
                }
                if st[3] == value {
                    st[3] = 0;
                    sz = sz - 1;
                }
                proof {
                    assert(stack_set(st) =~= stack_set(*stack).remove(value));
                }
                Some(SmallSetI32::Stack((st, sz)))
            },
            SmallSetI32::Heap(set) => {
                fx_set_remove(set, value);
                proof {
                    lemma_set_wf_remove(old(self).view(), value);
                }
                None
            },
        };
        if let Some(n) = next {
            proof {
                lemma_set_wf_remove(old(self).view(), value);
            }
            *self = n;
        }
    }

    /// The values of the set, each once, in no stated order.
    pub fn iter(&self) -> (v: Vec<i32>)
        requires
            self.wf(),
        ensures
            v@.to_set() == self.view(),
            v@.no_duplicates(),
    {
        match self {
            SmallSetI32::Stack((stack, _)) => {
                let mut v: Vec<i32> = Vec::new();
                if stack[0] != 0 {
                    v.push(stack[0]);
                }
                if stack[1] != 0 {
                    v.push(stack[1]);
                }
                if stack[2] != 0 {
                    v.push(stack[2]);
                }
                if stack[3] != 0 {
                    v.push(stack[3]);
                }
                proof {
                    assert forall|x: i32| v@.contains(x) <==> stack_set(*stack).contains(x) by {
                        if stack_set(*stack).contains(x) {
                            if x == stack[0] {
                                assert(v@[0] == x);
                            } else if x == stack[1] {
                                assert(v@[nz(stack[0]) as int] == x);
                            } else if x == stack[2] {
                                assert(v@[(nz(stack[0]) + nz(stack[1])) as int] == x);
                            } else {
                                assert(v@[(nz(stack[0]) + nz(stack[1]) + nz(stack[2])) as int]
                                    == x);
                            }
                        }
                    }
                    assert(v@.to_set() =~= stack_set(*stack));
                }
                v
            },
            SmallSetI32::Heap(set) => fx_set_to_vec(set),
        }
    }

    /// Number of values.
    pub fn len(&self) -> (n: usize)
        requires
            self.wf(),
        ensures
            n == self.view().len(),
    {
        match self {
            SmallSetI32::Stack((stack, size)) => {
                proof {
                    lemma_stack_set_len(*stack);
                }
                *size as usize
            },
            SmallSetI32::Heap(set) => fx_set_len(set),
        }
    }

    pub fn is_empty(&self) -> (b: bool)
        requires
            self.wf(),
        ensures
            b == (self.view() == Set::<i32>::empty()),
    {
        let n = self.len();
        proof {
            if n == 0 {
                assert(self.view() =~= Set::<i32>::empty());
            } else {
                assert(self.view().len() > 0);
            }
        }
        n == 0
    }
}

impl Default for SmallSetI32 {
    fn default() -> (s: Self)
        ensures
            s.wf(),
            s.view() == Set::<i32>::empty(),
    {
        Self::new()
    }
}

/// Inserting into a well-formed set where the negation is absent keeps it
/// well-formed.
proof fn lemma_set_wf_insert(s: Set<i32>, v: i32)
    requires
        set_wf(s),
        v != 0,
        v != i32::MIN,
        !s.contains((-v) as i32),
    ensures
        set_wf(s.insert(v)),
{
    assert forall|x: i32| #[trigger] s.insert(v).contains(x) implies !s.insert(v).contains(
        (-x) as i32,
    ) by {
        if x == v {
        } else {
            assert(s.contains(x));
            assert((-x) as i32 != v) by {
                if (-x) as i32 == v {
                    assert((-v) as i32 == x);
                }
            }
        }
    }
}

proof fn lemma_set_wf_remove(s: Set<i32>, v: i32)
    requires
        set_wf(s),
    ensures
        set_wf(s.remove(v)),
{
}

/// The array form after inserting `value` (absent negation), or `None` when
/// `value` is absent and no slot is free.
fn stack_insert(stack: [i32; 4], size: u8, value: i32) -> (r: Option<([i32; 4], u8)>)
    requires
        size == count_used(stack),
        stack_distinct(stack),
        set_wf(stack_set(stack)),
        value != 0,
        value != i32::MIN,
        !stack_set(stack).contains((-value) as i32),
    ensures
        r matches Some(p) ==> {
            &&& p.1 == count_used(p.0)
            &&& stack_distinct(p.0)
            &&& stack_set(p.0) == stack_set(stack).insert(value)
            &&& set_wf(stack_set(p.0))
        },
        r is None ==> count_used(stack) == 4 && !stack_set(stack).contains(value),
{
    proof {
        lemma_set_wf_insert(stack_set(stack), value);
    }
    if stack[0] == value || stack[1] == value || stack[2] == value || stack[3] == value {
        proof {
            assert(stack_set(stack) =~= stack_set(stack).insert(value));
        }
        return Some((stack, size));
    }
    let mut st = stack;
    if st[0] == 0 {
        st[0] = value;
    } else if st[1] == 0 {
        st[1] = value;
    } else if st[2] == 0 {
        st[2] = value;
    } else if st[3] == 0 {
        st[3] = value;
    } else {
        proof {
            assert(!stack_set(stack).contains(value));
        }
        return None;
    }
    proof {
        assert(stack_set(st) =~= stack_set(stack).insert(value));
    }
    Some((st, size + 1))
}

/// The hash form of a full array with `value` added.
fn stack_to_heap(stack: [i32; 4], value: i32) -> (h: FxHashSet<i32>)
    requires
        count_used(stack) == 4,
    ensures
        h@ == stack_set(stack).insert(value),
{
    let mut set = fx_set_with_capacity(STACK_LEN * 2);
    fx_set_insert(&mut set, stack[0]);
    fx_set_insert(&mut set, stack[1]);
    fx_set_insert(&mut set, stack[2]);
    fx_set_insert(&mut set, stack[3]);
    fx_set_insert(&mut set, value);
    proof {
        assert(set@ =~= stack_set(stack).insert(value));
    }
    set
}

/// The used slots of a distinct array hold as many values as they count.
proof fn lemma_stack_set_len(s: [i32; 4])
    requires
        stack_distinct(s),
    ensures
        stack_set(s).finite(),
        stack_set(s).len() == count_used(s),
{
    let e = Set::<i32>::empty();
    let s0 = if s[0] != 0 {
        e.insert(s[0])
    } else {
        e
    };
    let s1 = if s[1] != 0 {
        s0.insert(s[1])
    } else {
        s0
    };
    let s2 = if s[2] != 0 {
        s1.insert(s[2])
    } else {
        s1
    };
    let s3 = if s[3] != 0 {
        s2.insert(s[3])
    } else {
        s2
    };
    assert(s0.len() == nz(s[0]));
    assert(s1.len() == nz(s[0]) + nz(s[1])) by {
        if s[1] != 0 {
            assert(!s0.contains(s[1]));
        }
    }
    assert(s2.len() == nz(s[0]) + nz(s[1]) + nz(s[2])) by {
        if s[2] != 0 {
            assert(!s1.contains(s[2]));
        }
    }
    assert(s3.len() == count_used(s)) by {
        if s[3] != 0 {
            assert(!s2.contains(s[3]));
        }
    }
    assert(stack_set(s) =~= s3);
}

/// Inserting a value and then its negation gives back the set, when the value
/// was absent.
pub proof fn lemma_insert_then_cancel(s: Set<i32>, v: i32)
    requires
        set_wf(s),
        v != 0,
        v != i32::MIN,
        !s.contains(v),
    ensures
        spec_insert(spec_insert(s, v), (-v) as i32) == s,
{
    if s.contains((-v) as i32) {
        assert(!s.contains((-((-v) as i32)) as i32));
        assert(spec_insert(s.remove((-v) as i32), (-v) as i32) =~= s);
    } else {
        assert((-((-v) as i32)) as i32 == v);
        assert(spec_insert(s.insert(v), (-v) as i32) =~= s);
    }
}

/// Inserting keeps the set well-formed: never a value together with its
/// negation.
pub proof fn lemma_insert_keeps_wf(s: Set<i32>, v: i32)
    requires
        set_wf(s),
        v != 0,
        v != i32::MIN,
    ensures
        set_wf(spec_insert(s, v)),
        spec_insert(s, v).contains(v) || s.contains((-v) as i32),
        !spec_insert(s, v).contains((-v) as i32),
{
    if !s.contains((-v) as i32) {
        lemma_set_wf_insert(s, v);
    }
}

} // verus!
