//! Names and what they stand for: the address map, the folded pointers, and
//! the lookups of functions, globals and parameters by name.
use vstd::prelude::*;
use crate::ir::{Func, Global, Module, Param, Pointer};
use crate::text::same;

verus! {

/// A map from names to values. A later entry for a name replaces the earlier.
#[derive(Debug)]
pub struct NameMap<V> {
    entries: Vec<(String, V)>,
}

pub open spec fn entries_map<V>(entries: Seq<(String, V)>) -> Map<Seq<char>, V>
    decreases entries.len(),
{
    if entries.len() == 0 {
        Map::empty()
    } else {
        entries_map(entries.drop_last()).insert(entries.last().0@, entries.last().1)
    }
}

impl<V> View for NameMap<V> {
    type V = Map<Seq<char>, V>;

    closed spec fn view(&self) -> Map<Seq<char>, V> {
        entries_map(self.entries@)
    }
}

impl<V> NameMap<V> {
    pub fn new() -> (r: Self)
        ensures
            r@ == Map::<Seq<char>, V>::empty(),
    {
        NameMap { entries: Vec::new() }
    }

    pub fn insert(&mut self, name: String, value: V)
        ensures
            final(self)@ == old(self)@.insert(name@, value),
    {
        self.entries.push((name, value));
        assert(self.entries@.drop_last() =~= old(self).entries@);
    }

    pub fn get(&self, name: &str) -> (r: Option<&V>)
        ensures
            match r {
                Some(v) => self@.dom().contains(name@) && *v == self@[name@],
                None => !self@.dom().contains(name@),
            },
    {
        let mut i: usize = self.entries.len();
        assert(self.entries@.take(i as int) =~= self.entries@);
        while i > 0
            invariant
                i <= self.entries@.len(),
                self@.dom().contains(name@) == entries_map(self.entries@.take(i as int)).dom().contains(
                    name@,
                ),
                self@.dom().contains(name@) ==> self@[name@] == entries_map(
                    self.entries@.take(i as int),
                )[name@],
            decreases i,
        {
            proof {
                let t = self.entries@.take(i as int);
                assert(t.drop_last() =~= self.entries@.take(i - 1));
                assert(t.last() == self.entries@[i - 1]);
            }
            i -= 1;
            if same(self.entries[i].0.as_str(), name) {
                return Some(&self.entries[i].1);
            }
        }
        None
    }
}

/// Byte addresses by name: globals under their own names, the locals of a
/// function under [`ssa_key`].
pub type AddrMap = NameMap<u16>;

/// Folded pointers, keyed by [`ssa_key`].
pub type PtrMap = NameMap<Pointer>;

/// The key of local `name` of function `func`: `func::name`.
pub open spec fn key(func: Seq<char>, name: Seq<char>) -> Seq<char> {
    func + "::"@ + name
}

pub fn ssa_key(func: &str, name: &str) -> (r: String)
    ensures
        r@ == key(func@, name@),
{
    let mut s = func.to_owned();
    s.append("::");
    s.append(name);
    s
}

/// The first function from `i` on that is called `name`.
pub open spec fn func_from(funcs: Seq<Func>, name: Seq<char>, i: int) -> Option<usize>
    decreases funcs.len() - i,
{
    if i < 0 || i >= funcs.len() {
        None
    } else if funcs[i].name@ == name {
        Some(i as usize)
    } else {
        func_from(funcs, name, i + 1)
    }
}

pub open spec fn func_index(m: &Module, name: Seq<char>) -> Option<usize> {
    func_from(m.funcs@, name, 0)
}

pub fn find_func(m: &Module, name: &str) -> (r: Option<usize>)
    ensures
        r == func_index(m, name@),
        r matches Some(i) ==> i < m.funcs@.len() && m.funcs@[i as int].name@ == name@,
{
    let mut i: usize = 0;
    while i < m.funcs.len()
        invariant
            i <= m.funcs@.len(),
            func_index(m, name@) == func_from(m.funcs@, name@, i as int),
        decreases m.funcs@.len() - i,
    {
        if same(m.funcs[i].name.as_str(), name) {
            return Some(i);
        }
        i += 1;
    }
    None
}

pub proof fn lemma_func_from(funcs: Seq<Func>, name: Seq<char>, i: int)
    requires
        0 <= i,
        funcs.len() <= usize::MAX,
    ensures
        match func_from(funcs, name, i) {
            Some(k) => i <= k < funcs.len() && funcs[k as int].name@ == name && (forall|j: int|
                i <= j < k ==> (#[trigger] funcs[j]).name@ != name),
            None => forall|j: int| i <= j < funcs.len() ==> (#[trigger] funcs[j]).name@ != name,
        },
    decreases funcs.len() - i,
{
    if i < funcs.len() && funcs[i].name@ != name {
        lemma_func_from(funcs, name, i + 1);
    }
}

/// The first global from `i` on that is called `name`.
pub open spec fn global_from(globals: Seq<Global>, name: Seq<char>, i: int) -> Option<usize>
    decreases globals.len() - i,
{
    if i < 0 || i >= globals.len() {
        None
    } else if globals[i].name@ == name {
        Some(i as usize)
    } else {
        global_from(globals, name, i + 1)
    }
}

pub open spec fn global_index(m: &Module, name: Seq<char>) -> Option<usize> {
    global_from(m.globals@, name, 0)
}

pub fn find_global(m: &Module, name: &str) -> (r: Option<usize>)
    ensures
        r == global_index(m, name@),
        r matches Some(i) ==> i < m.globals@.len() && m.globals@[i as int].name@ == name@,
{
    let mut i: usize = 0;
    while i < m.globals.len()
        invariant
            i <= m.globals@.len(),
            global_index(m, name@) == global_from(m.globals@, name@, i as int),
        decreases m.globals@.len() - i,
    {
        if same(m.globals[i].name.as_str(), name) {
            return Some(i);
        }
        i += 1;
    }
    None
}

/// The first parameter from `i` on that is called `name`.
pub open spec fn param_from(params: Seq<Param>, name: Seq<char>, i: int) -> Option<usize>
    decreases params.len() - i,
{
    if i < 0 || i >= params.len() {
        None
    } else if params[i].name@ == name {
        Some(i as usize)
    } else {
        param_from(params, name, i + 1)
    }
}

pub fn find_param(params: &Vec<Param>, name: &str) -> (r: Option<usize>)
    ensures
        r == param_from(params@, name@, 0),
        r matches Some(i) ==> i < params@.len(),
{
    let mut i: usize = 0;
    while i < params.len()
        invariant
            i <= params@.len(),
            param_from(params@, name@, 0) == param_from(params@, name@, i as int),
        decreases params@.len() - i,
    {
        if same(params[i].name.as_str(), name) {
            return Some(i);
        }
        i += 1;
    }
    None
}

/// Whether some parameter called `name` is a plain pointer.
pub open spec fn is_pointer_param(params: Seq<Param>, name: Seq<char>) -> bool {
    exists|i: int| 0 <= i < params.len() && (#[trigger] params[i]).name@ == name && params[i].ptr
}

pub fn holds_pointer(params: &Vec<Param>, name: &str) -> (r: bool)
    ensures
        r == is_pointer_param(params@, name@),
{
    let mut i: usize = 0;
    while i < params.len()
        invariant
            i <= params@.len(),
            forall|j: int|
                0 <= j < i ==> !((#[trigger] params@[j]).name@ == name@ && params@[j].ptr),
        decreases params@.len() - i,
    {
        if params[i].ptr && same(params[i].name.as_str(), name) {
            assert(params@[i as int].name@ == name@);
            return true;
        }
        i += 1;
    }
    false
}

proof fn lemma_global_from(globals: Seq<Global>, name: Seq<char>, i: int)
    requires
        0 <= i,
        globals.len() <= usize::MAX,
    ensures
        match global_from(globals, name, i) {
            Some(k) => i <= k < globals.len() && globals[k as int].name@ == name && (forall|j: int|
                i <= j < k ==> (#[trigger] globals[j]).name@ != name),
            None => forall|j: int| i <= j < globals.len() ==> (#[trigger] globals[j]).name@ != name,
        },
    decreases globals.len() - i,
{
    if i < globals.len() && globals[i].name@ != name {
        lemma_global_from(globals, name, i + 1);
    }
}

proof fn lemma_param_from(params: Seq<Param>, name: Seq<char>, i: int)
    requires
        0 <= i,
        params.len() <= usize::MAX,
    ensures
        match param_from(params, name, i) {
            Some(k) => i <= k < params.len() && params[k as int].name@ == name && (forall|j: int|
                i <= j < k ==> (#[trigger] params[j]).name@ != name),
            None => forall|j: int| i <= j < params.len() ==> (#[trigger] params[j]).name@ != name,
        },
    decreases params.len() - i,
{
    if i < params.len() && params[i].name@ != name {
        lemma_param_from(params, name, i + 1);
    }
}

/// A function, a global and a parameter are found by their name: the first that has it,
/// and none where none has it.
pub proof fn law_things_are_found_by_name(m: &Module, params: Seq<Param>, name: Seq<char>)
    requires
        m.funcs@.len() <= usize::MAX,
        m.globals@.len() <= usize::MAX,
        params.len() <= usize::MAX,
    ensures
        match func_index(m, name) {
            Some(k) => k < m.funcs@.len() && m.funcs@[k as int].name@ == name && (forall|j: int|
                0 <= j < k ==> (#[trigger] m.funcs@[j]).name@ != name),
            None => forall|j: int| 0 <= j < m.funcs@.len() ==> (#[trigger] m.funcs@[j]).name@ != name,
        },
        match global_index(m, name) {
            Some(k) => k < m.globals@.len() && m.globals@[k as int].name@ == name && (forall|j: int|
                0 <= j < k ==> (#[trigger] m.globals@[j]).name@ != name),
            None => forall|j: int|
                0 <= j < m.globals@.len() ==> (#[trigger] m.globals@[j]).name@ != name,
        },
        match param_from(params, name, 0) {
            Some(k) => k < params.len() && params[k as int].name@ == name && (forall|j: int|
                0 <= j < k ==> (#[trigger] params[j]).name@ != name),
            None => forall|j: int| 0 <= j < params.len() ==> (#[trigger] params[j]).name@ != name,
        },
{
    lemma_func_from(m.funcs@, name, 0);
    lemma_global_from(m.globals@, name, 0);
    lemma_param_from(params, name, 0);
}

} // verus!
