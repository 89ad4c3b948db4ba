//! Debugging information entries, as plain values, and the program model
//! built from them: the scope tree and the table of derived types.

use vstd::prelude::*;
use crate::location::{as_signed, to_signed, frame_offset, frame_offset_spec, UnitEncoding};
use crate::program::{DerivedType, Scope, TypeTable, Variable};
use crate::table::NameMap;

verus! {

/// Tags of debugging information entries, as the DWARF standard numbers them.
pub const TAG_FORMAL_PARAMETER: u16 = 0x05;
pub const TAG_LEXICAL_BLOCK: u16 = 0x0b;
pub const TAG_MEMBER: u16 = 0x0d;
pub const TAG_POINTER_TYPE: u16 = 0x0f;
pub const TAG_COMPILE_UNIT: u16 = 0x11;
pub const TAG_STRUCTURE_TYPE: u16 = 0x13;
pub const TAG_TYPEDEF: u16 = 0x16;
pub const TAG_SUBPROGRAM: u16 = 0x2e;
pub const TAG_VARIABLE: u16 = 0x34;

/// Attribute names, as the DWARF standard numbers them.
pub const AT_LOCATION: u16 = 0x02;
pub const AT_NAME: u16 = 0x03;
pub const AT_LOW_PC: u16 = 0x11;
pub const AT_HIGH_PC: u16 = 0x12;
pub const AT_DATA_MEMBER_LOCATION: u16 = 0x38;
pub const AT_TYPE: u16 = 0x49;

/// The value of an attribute, by the form it is encoded in.
#[derive(Clone, Debug)]
pub enum AttrValue {
    /// An address.
    Addr(u64),
    /// An unsigned constant.
    Udata(u64),
    /// A location expression.
    Exprloc(Vec<u8>),
    /// The offset of another entry of the same unit.
    UnitRef(u64),
    /// A string.
    Text(String),
    /// Any other form.
    Other,
}

#[derive(Clone, Debug)]
pub struct Attribute {
    pub name: u16,
    pub value: AttrValue,
}

/// A debugging information entry and the entries nested in it.
pub struct Die {
    /// The entry's offset in its unit.
    pub offset: u64,
    pub tag: u16,
    pub attrs: Vec<Attribute>,
    pub children: Vec<Die>,
}

/// A compilation unit: its encoding and its root entry.
pub struct DwarfUnit {
    pub encoding: UnitEncoding,
    pub root: Die,
}

/// The first attribute named `name`.
pub open spec fn first_attr(attrs: Seq<Attribute>, name: u16) -> Option<AttrValue>
    decreases attrs.len(),
{
    if attrs.len() == 0 {
        None
    } else if attrs[0].name == name {
        Some(attrs[0].value)
    } else {
        first_attr(attrs.drop_first(), name)
    }
}

pub fn find_attr(attrs: &Vec<Attribute>, name: u16) -> (r: Option<&AttrValue>)
    ensures
        match r {
            Some(v) => first_attr(attrs@, name) == Some(*v),
            None => first_attr(attrs@, name) is None,
        },
{
    let mut i: usize = 0;
    proof {
        assert(attrs@.skip(0) =~= attrs@);
    }
    while i < attrs.len()
        invariant
            i <= attrs@.len(),
            first_attr(attrs@.skip(i as int), name) == first_attr(attrs@, name),
        decreases attrs@.len() - i,
    {
        proof {
            assert(attrs@.skip(i as int).drop_first() =~= attrs@.skip(i + 1));
        }
        if attrs[i].name == name {
            return Some(&attrs[i].value);
        }
        i = i + 1;
    }
    None
}

/// The entry at `off` in the tree of `d`, in depth-first order: `d` itself
/// when `i` is `-1`, else among its children from index `i` on.
pub open spec fn search(d: Die, off: u64, i: int) -> Option<Die>
    decreases d, d.children@.len() - i,
    when i >= -1
{
    if i == -1 {
        if d.offset == off {
            Some(d)
        } else {
            search(d, off, 0)
        }
    } else if i >= d.children@.len() {
        None
    } else {
        match search(d.children@[i], off, -1) {
            Some(x) => Some(x),
            None => search(d, off, i + 1),
        }
    }
}

/// Finds the entry at offset `off` in the tree of `d`.
pub fn find_die(d: &Die, off: u64) -> (r: Option<&Die>)
    ensures
        match r {
            Some(x) => search(*d, off, -1) == Some(*x),
            None => search(*d, off, -1) is None,
        },
    decreases *d,
{
    if d.offset == off {
        return Some(d);
    }
    let mut i: usize = 0;
    while i < d.children.len()
        invariant
            i <= d.children@.len(),
            d.offset != off,
            search(*d, off, -1) == search(*d, off, i as int),
        decreases d.children@.len() - i,
    {
        match find_die(&d.children[i], off) {
            Some(x) => {
                return Some(x);
            },
            None => {},
        }
        i = i + 1;
    }
    None
}

/// The text of the first `DW_AT_name` attribute, if it is a string.
pub open spec fn name_of(d: Die) -> Option<Seq<char>> {
    match first_attr(d.attrs@, AT_NAME) {
        Some(AttrValue::Text(s)) => Some(s@),
        _ => None,
    }
}

fn die_name(d: &Die) -> (r: Option<String>)
    ensures
        match r {
            Some(s) => name_of(*d) == Some(s@),
            None => name_of(*d) is None,
        },
{
    match find_attr(&d.attrs, AT_NAME) {
        Some(AttrValue::Text(s)) => Some(s.clone()),
        _ => None,
    }
}

/// The name of the type that `d` refers to by its first `DW_AT_type`
/// attribute: `"*"` for a pointer type, else that entry's name.
pub open spec fn type_label(root: Die, d: Die) -> Option<Seq<char>> {
    match first_attr(d.attrs@, AT_TYPE) {
        Some(AttrValue::UnitRef(off)) => match search(root, off, -1) {
            Some(t) => if t.tag == TAG_POINTER_TYPE {
                Some("*"@)
            } else {
                name_of(t)
            },
            None => None,
        },
        _ => None,
    }
}

fn type_of(root: &Die, d: &Die) -> (r: Option<String>)
    ensures
        match r {
            Some(s) => type_label(*root, *d) == Some(s@),
            None => type_label(*root, *d) is None,
        },
{
    match find_attr(&d.attrs, AT_TYPE) {
        Some(AttrValue::UnitRef(off)) => match find_die(root, *off) {
            Some(t) => if t.tag == TAG_POINTER_TYPE {
                Some(String::from_str("*"))
            } else {
                die_name(t)
            },
            None => None,
        },
        _ => None,
    }
}

/// What a variable of the model holds, as values.
pub open spec fn var_view(v: Variable) -> (Seq<char>, i64, Seq<char>) {
    (v.name@, v.offset, v.ty_name@)
}

pub open spec fn opt_var_view(v: Option<Variable>) -> Option<(Seq<char>, i64, Seq<char>)> {
    match v {
        Some(x) => Some(var_view(x)),
        None => None,
    }
}

/// The offset recorded for the entry at `off`, the first one listed.
pub open spec fn recorded_offset(locs: Seq<(u64, i64)>, off: u64) -> Option<i64>
    decreases locs.len(),
{
    if locs.len() == 0 {
        None
    } else if locs[0].0 == off {
        Some(locs[0].1)
    } else {
        recorded_offset(locs.drop_first(), off)
    }
}

fn find_offset(locs: &Vec<(u64, i64)>, off: u64) -> (r: Option<i64>)
    ensures
        r == recorded_offset(locs@, off),
{
    let mut i: usize = 0;
    proof {
        assert(locs@.skip(0) =~= locs@);
    }
    while i < locs.len()
        invariant
            i <= locs@.len(),
            recorded_offset(locs@.skip(i as int), off) == recorded_offset(locs@, off),
        decreases locs@.len() - i,
    {
        proof {
            assert(locs@.skip(i as int).drop_first() =~= locs@.skip(i + 1));
        }
        if locs[i].0 == off {
            return Some(locs[i].1);
        }
        i = i + 1;
    }
    None
}

pub open spec fn is_variable_tag(t: u16) -> bool {
    t == TAG_VARIABLE || t == TAG_FORMAL_PARAMETER
}

pub open spec fn is_scope_tag(t: u16) -> bool {
    t == TAG_SUBPROGRAM || t == TAG_LEXICAL_BLOCK
}

/// The offset of a variable: for a member, its `DW_AT_data_member_location`
/// constant; for a local or a parameter, what its location expression was
/// found to give, as recorded in `locs`.
pub open spec fn offset_spec(locs: Seq<(u64, i64)>, d: Die) -> Option<i64> {
    if d.tag == TAG_MEMBER {
        match first_attr(d.attrs@, AT_DATA_MEMBER_LOCATION) {
            Some(AttrValue::Udata(a)) => Some(as_signed(a)),
            _ => None,
        }
    } else {
        match first_attr(d.attrs@, AT_LOCATION) {
            Some(AttrValue::Exprloc(_)) => recorded_offset(locs, d.offset),
            _ => None,
        }
    }
}

/// The variable that a variable, parameter or member entry describes: it
/// needs a name and an offset; its type name is empty when unresolved.
pub open spec fn variable_spec(root: Die, locs: Seq<(u64, i64)>, d: Die) -> Option<(Seq<char>, i64, Seq<char>)> {
    if !(is_variable_tag(d.tag) || d.tag == TAG_MEMBER) {
        None
    } else {
        match (name_of(d), offset_spec(locs, d)) {
            (Some(n), Some(o)) => Some(
                (
                    n,
                    o,
                    match type_label(root, d) {
                        Some(t) => t,
                        None => seq![],
                    },
                ),
            ),
            _ => None,
        }
    }
}

/// Builds the variable that the entry `d` of `unit` describes, with the
/// offsets of locals and parameters taken from `locs`.
pub fn process_variable(unit: &DwarfUnit, locs: &Vec<(u64, i64)>, d: &Die) -> (r: Option<Variable>)
    ensures
        opt_var_view(r) == variable_spec(unit.root, locs@, *d),
{
    if d.tag != TAG_VARIABLE && d.tag != TAG_FORMAL_PARAMETER && d.tag != TAG_MEMBER {
        return None;
    }
    let name = die_name(d);
    let offset: Option<i64> = if d.tag == TAG_MEMBER {
        match find_attr(&d.attrs, AT_DATA_MEMBER_LOCATION) {
            Some(AttrValue::Udata(a)) => Some(to_signed(*a)),
            _ => None,
        }
    } else {
        match find_attr(&d.attrs, AT_LOCATION) {
            Some(AttrValue::Exprloc(_)) => find_offset(locs, d.offset),
            _ => None,
        }
    };
    match (name, offset) {
        (Some(n), Some(o)) => {
            let ty = match type_of(&unit.root, d) {
                Some(t) => t,
                None => String::new(),
            };
            Some(Variable { name: n, offset: o, ty_name: ty })
        },
        _ => None,
    }
}


pub open spec fn low_pc_spec(d: Die) -> u64 {
    match first_attr(d.attrs@, AT_LOW_PC) {
        Some(AttrValue::Addr(a)) => a,
        _ => 0,
    }
}

/// The extent of a scope: its `DW_AT_high_pc` constant, an offset from
/// `low_pc`; without one, the scope reaches to the end of memory.
pub open spec fn high_pc_spec(d: Die) -> u64 {
    match first_attr(d.attrs@, AT_HIGH_PC) {
        Some(AttrValue::Udata(h)) => h,
        _ => u64::MAX,
    }
}

/// The variables that the entries `kids` declare, a later entry of a name
/// replacing an earlier one.
pub open spec fn vars_spec(root: Die, locs: Seq<(u64, i64)>, kids: Seq<Die>) -> Map<
    Seq<char>,
    (Seq<char>, i64, Seq<char>),
>
    decreases kids.len(),
{
    if kids.len() == 0 {
        Map::empty()
    } else {
        let m = vars_spec(root, locs, kids.drop_last());
        let k = kids.last();
        if is_variable_tag(k.tag) {
            match variable_spec(root, locs, k) {
                Some(v) => m.insert(v.0, v),
                None => m,
            }
        } else {
            m
        }
    }
}

/// The entries among `kids` that open a scope: functions and blocks.
pub open spec fn scope_dies(kids: Seq<Die>) -> Seq<Die>
    decreases kids.len(),
{
    if kids.len() == 0 {
        seq![]
    } else {
        let p = scope_dies(kids.drop_last());
        if is_scope_tag(kids.last().tag) {
            p.push(kids.last())
        } else {
            p
        }
    }
}

pub open spec fn vars_view(m: Map<Seq<char>, Variable>) -> Map<Seq<char>, (Seq<char>, i64, Seq<char>)> {
    m.map_values(|v: Variable| var_view(v))
}

/// The fields of scope `s` are those that the entry `d` gives.
pub open spec fn fields_match(s: Scope, root: Die, locs: Seq<(u64, i64)>, d: Die) -> bool {
    &&& match s.name {
        Some(n) => name_of(d) == Some(n@),
        None => name_of(d) is None,
    }
    &&& s.low_pc == low_pc_spec(d)
    &&& s.high_pc == high_pc_spec(d)
    &&& s.variables.wf()
    &&& vars_view(s.variables@) == vars_spec(root, locs, d.children@)
    &&& s.scopes@.len() == scope_dies(d.children@).len()
}

/// The scope `s` is the one that the entry `d` describes (when `i` is `-1`),
/// or its children from index `i` on are those that the scope entries
/// among the children of `d` describe.
pub open spec fn built(s: Scope, root: Die, locs: Seq<(u64, i64)>, d: Die, i: int) -> bool
    decreases s, s.scopes@.len() - i,
    when i >= -1
{
    if i == -1 {
        fields_match(s, root, locs, d) && built(s, root, locs, d, 0)
    } else if i >= s.scopes@.len() {
        true
    } else {
        built(s.scopes@[i], root, locs, scope_dies(d.children@)[i], -1) && built(s, root, locs, d, i + 1)
    }
}

/// `s` is the scope tree that the entry `d` of a unit with root `root`
/// describes, with the offsets of locals taken from `locs`.
pub open spec fn scope_from(s: Scope, root: Die, locs: Seq<(u64, i64)>, d: Die) -> bool {
    built(s, root, locs, d, -1)
}

proof fn lemma_built_from_children(s: Scope, root: Die, locs: Seq<(u64, i64)>, d: Die, i: int)
    requires
        0 <= i,
        forall|j: int|
            i <= j < s.scopes@.len() ==> #[trigger] built(s.scopes@[j], root, locs, scope_dies(d.children@)[j], -1),
    ensures
        built(s, root, locs, d, i),
    decreases s.scopes@.len() - i,
{
    if i < s.scopes@.len() {
        lemma_built_from_children(s, root, locs, d, i + 1);
        assert(built(s.scopes@[i], root, locs, scope_dies(d.children@)[i], -1));
    }
}

/// Builds the scope that the entry `d` of `unit` describes: its name and
/// address range, the variables and parameters declared directly in it, and
/// the scopes of the functions and blocks nested in it.
pub fn construct_scope(unit: &DwarfUnit, locs: &Vec<(u64, i64)>, d: &Die) -> (r: Scope)
    ensures
        scope_from(r, unit.root, locs@, *d),
    decreases *d,
{
    let ghost root = unit.root;
    let name = die_name(d);
    let low_pc: u64 = match find_attr(&d.attrs, AT_LOW_PC) {
        Some(AttrValue::Addr(a)) => *a,
        _ => 0,
    };
    let high_pc: u64 = match find_attr(&d.attrs, AT_HIGH_PC) {
        Some(AttrValue::Udata(h)) => *h,
        _ => u64::MAX,
    };
    let mut variables: NameMap<Variable> = NameMap::new();
    let mut scopes: Vec<Scope> = Vec::new();
    let ghost kids = d.children@;
    let mut i: usize = 0;
    proof {
        assert(kids.take(0) =~= Seq::<Die>::empty());
        assert(vars_view(variables@) =~= Map::empty());
    }
    while i < d.children.len()
        invariant
            kids == d.children@,
            root == unit.root,
            i <= kids.len(),
            variables.wf(),
            vars_view(variables@) == vars_spec(root, locs@, kids.take(i as int)),
            scopes@.len() == scope_dies(kids.take(i as int)).len(),
            forall|j: int|
                0 <= j < scopes@.len() ==> #[trigger] built(scopes@[j], root, locs@, scope_dies(kids.take(i as int))[j], -1),
        decreases kids.len() - i,
    {
        let child = &d.children[i];
        let ghost before = kids.take(i as int);
        let ghost after = kids.take(i + 1);
        proof {
            assert(after.drop_last() =~= before);
            assert(after.last() == *child);
        }
        if child.tag == TAG_VARIABLE || child.tag == TAG_FORMAL_PARAMETER {
            match process_variable(unit, locs, child) {
                Some(v) => {
                    let ghost old_map = variables@;
                    let key = v.name.clone();
                    variables.insert(key, v);
                    proof {
                        assert(vars_view(variables@) =~= vars_view(old_map).insert(var_view(v).0, var_view(v)));
                    }
                },
                None => {},
            }
        }
        if child.tag == TAG_SUBPROGRAM || child.tag == TAG_LEXICAL_BLOCK {
            let ghost old_scopes = scopes@;
            let sub = construct_scope(unit, locs, child);
            scopes.push(sub);
            proof {
                assert forall|j: int| 0 <= j < scopes@.len() implies #[trigger] built(
                    scopes@[j],
                    root,
                    locs@,
                    scope_dies(after)[j],
                    -1,
                ) by {
                    if j < old_scopes.len() {
                        assert(scopes@[j] == old_scopes[j]);
                        assert(scope_dies(after)[j] == scope_dies(before)[j]);
                    }
                }
            }
        } else {
            proof {
                assert(scope_dies(after) == scope_dies(before));
            }
        }
        i = i + 1;
    }
    proof {
        assert(kids.take(i as int) =~= kids);
    }
    let r = Scope { name, variables, scopes, low_pc, high_pc };
    proof {
        lemma_built_from_children(r, root, locs@, *d, 0);
    }
    r
}

/// The offset from the frame base that a variable or parameter entry's
/// location expression gives, with the entry's offset.
pub open spec fn offset_entry(d: Die, enc: UnitEncoding) -> Option<(u64, i64)> {
    if is_variable_tag(d.tag) {
        match first_attr(d.attrs@, AT_LOCATION) {
            Some(AttrValue::Exprloc(b)) => match frame_offset_spec(b@, enc) {
                Some(o) => Some((d.offset, o)),
                None => None,
            },
            _ => None,
        }
    } else {
        None
    }
}

/// The offsets of the variables and parameters among `dies`, in order.
pub open spec fn offsets_in(dies: Seq<Die>, enc: UnitEncoding) -> Seq<(u64, i64)>
    decreases dies.len(),
{
    if dies.len() == 0 {
        seq![]
    } else {
        let p = offsets_in(dies.drop_last(), enc);
        match offset_entry(dies.last(), enc) {
            Some(x) => p.push(x),
            None => p,
        }
    }
}

/// The offsets of the locals and parameters of a unit, in depth-first order.
pub open spec fn offsets_spec(unit: DwarfUnit) -> Seq<(u64, i64)> {
    offsets_in(preorder(unit.root, -1), unit.encoding)
}

proof fn lemma_offsets_in_append(a: Seq<Die>, b: Seq<Die>, enc: UnitEncoding)
    ensures
        offsets_in(a + b, enc) == offsets_in(a, enc) + offsets_in(b, enc),
    decreases b.len(),
{
    if b.len() == 0 {
        assert(a + b =~= a);
        assert(offsets_in(a, enc) + offsets_in(b, enc) =~= offsets_in(a, enc));
    } else {
        assert((a + b).drop_last() =~= a + b.drop_last());
        lemma_offsets_in_append(a, b.drop_last(), enc);
        let x = offset_entry(b.last(), enc);
        if x is Some {
            assert((offsets_in(a, enc) + offsets_in(b.drop_last(), enc)).push(x->0) =~= offsets_in(a, enc)
                + offsets_in(b.drop_last(), enc).push(x->0));
        } else {
            assert(offsets_in(a + b, enc) == offsets_in(a, enc) + offsets_in(b.drop_last(), enc));
        }
    }
}

/// Appends to `out` the offsets of the variable and parameter entries in the
/// tree of `d`, in depth-first order.
fn collect_offsets(d: &Die, enc: UnitEncoding, out: &mut Vec<(u64, i64)>)
    ensures
        final(out)@ == old(out)@ + offsets_in(preorder(*d, -1), enc),
    decreases *d,
{
    let ghost start = out@;
    if d.tag == TAG_VARIABLE || d.tag == TAG_FORMAL_PARAMETER {
        match find_attr(&d.attrs, AT_LOCATION) {
            Some(AttrValue::Exprloc(bytes)) => match frame_offset(bytes, enc) {
                Some(o) => out.push((d.offset, o)),
                None => {},
            },
            _ => {},
        }
    }
    proof {
        assert(seq![*d].drop_last() =~= Seq::<Die>::empty());
        assert(offsets_in(Seq::<Die>::empty(), enc) == Seq::<(u64, i64)>::empty());
        assert(seq![*d].last() == *d);
        assert(out@ =~= start + offsets_in(seq![*d], enc));
        lemma_offsets_in_append(seq![*d], preorder(*d, 0), enc);
    }
    let ghost target = start + offsets_in(preorder(*d, -1), enc);
    let mut i: usize = 0;
    while i < d.children.len()
        invariant
            i <= d.children@.len(),
            out@ + offsets_in(preorder(*d, i as int), enc) == target,
        decreases d.children@.len() - i,
    {
        let ghost before = out@;
        collect_offsets(&d.children[i], enc, out);
        proof {
            lemma_offsets_in_append(preorder(d.children@[i as int], -1), preorder(*d, i + 1), enc);
            assert(out@ + offsets_in(preorder(*d, i + 1), enc) =~= before + offsets_in(preorder(*d, i as int), enc));
        }
        i = i + 1;
    }
    proof {
        assert(offsets_in(preorder(*d, i as int), enc) =~= Seq::<(u64, i64)>::empty());
        assert(out@ + offsets_in(preorder(*d, i as int), enc) =~= out@);
    }
}

/// The offsets from the frame base of the locals and parameters of `unit`.
pub fn locate_variables(unit: &DwarfUnit) -> (r: Vec<(u64, i64)>)
    ensures
        r@ == offsets_spec(*unit),
{
    let mut out: Vec<(u64, i64)> = Vec::new();
    collect_offsets(&unit.root, unit.encoding, &mut out);
    proof {
        assert(out@ =~= offsets_spec(*unit));
    }
    out
}

/// Builds the global scope: named `root`, covering every address, with one
/// child scope for each compilation unit.
pub fn construct_global_scope(units: &Vec<DwarfUnit>) -> (r: Scope)
    ensures
        r.name matches Some(n) && n@ == "root"@,
        r.low_pc == 0,
        r.high_pc == u64::MAX,
        r.variables.wf(),
        r.variables@ == Map::<Seq<char>, Variable>::empty(),
        r.scopes@.len() == units@.len(),
        forall|i: int|
            0 <= i < units@.len() ==> #[trigger] scope_from(
                r.scopes@[i],
                units@[i].root,
                offsets_spec(units@[i]),
                units@[i].root,
            ),
{
    let mut scopes: Vec<Scope> = Vec::new();
    let mut k: usize = 0;
    while k < units.len()
        invariant
            k <= units@.len(),
            scopes@.len() == k,
            forall|i: int|
                0 <= i < k ==> #[trigger] scope_from(scopes@[i], units@[i].root, offsets_spec(units@[i]), units@[i].root),
        decreases units@.len() - k,
    {
        let unit = &units[k];
        let locs = locate_variables(unit);
        let s = construct_scope(unit, &locs, &unit.root);
        let ghost old_scopes = scopes@;
        scopes.push(s);
        proof {
            assert forall|i: int| 0 <= i < k + 1 implies #[trigger] scope_from(
                scopes@[i],
                units@[i].root,
                offsets_spec(units@[i]),
                units@[i].root,
            ) by {
                if i < k {
                    assert(scopes@[i] == old_scopes[i]);
                }
            }
        }
        k = k + 1;
    }
    Scope { name: Some(String::from_str("root")), variables: NameMap::new(), scopes, low_pc: 0, high_pc: u64::MAX }
}


/// The entries of the tree of `d` in depth-first order: `d` and then its
/// descendants when `i` is `-1`, else the trees of its children from index
/// `i` on.
pub open spec fn preorder(d: Die, i: int) -> Seq<Die>
    decreases d, d.children@.len() - i,
    when i >= -1
{
    if i == -1 {
        seq![d] + preorder(d, 0)
    } else if i >= d.children@.len() {
        seq![]
    } else {
        preorder(d.children@[i], -1) + preorder(d, i + 1)
    }
}

pub open spec fn is_type_tag(t: u16) -> bool {
    t == TAG_TYPEDEF || t == TAG_STRUCTURE_TYPE || t == TAG_POINTER_TYPE
}

/// The members that the member entries among `kids` describe, in order.
pub open spec fn members_spec(root: Die, kids: Seq<Die>) -> Seq<(Seq<char>, i64, Seq<char>)>
    decreases kids.len(),
{
    if kids.len() == 0 {
        seq![]
    } else {
        let p = members_spec(root, kids.drop_last());
        let k = kids.last();
        if k.tag == TAG_MEMBER {
            match variable_spec(root, seq![], k) {
                Some(v) => p.push(v),
                None => p,
            }
        } else {
            p
        }
    }
}

/// What a derived type holds, as values: its name, its base type and its
/// members.
pub type TypeView = (Seq<char>, Seq<char>, Seq<(Seq<char>, i64, Seq<char>)>);

pub open spec fn type_view(t: DerivedType) -> TypeView {
    (t.name@, t.base_type@, t.members@.map_values(|v: Variable| var_view(v)))
}

pub open spec fn types_view(m: Map<Seq<char>, DerivedType>) -> Map<Seq<char>, TypeView> {
    m.map_values(|t: DerivedType| type_view(t))
}

/// The derived type that the entry `d` describes: a typedef, structure or
/// pointer type with a name, and with a non-empty base type name or members.
pub open spec fn type_entry(root: Die, d: Die) -> Option<TypeView> {
    if !is_type_tag(d.tag) {
        None
    } else {
        let members = if d.tag == TAG_STRUCTURE_TYPE {
            members_spec(root, d.children@)
        } else {
            seq![]
        };
        match name_of(d) {
            Some(n) => if (type_label(root, d) is Some && type_label(root, d)->0.len() > 0) || members.len() > 0 {
                Some(
                    (
                        n,
                        match type_label(root, d) {
                            Some(b) => b,
                            None => seq![],
                        },
                        members,
                    ),
                )
            } else {
                None
            },
            None => None,
        }
    }
}

/// The table `acc` with the derived types of `dies` added in order, a later
/// entry of a name replacing an earlier one.
pub open spec fn add_types(acc: Map<Seq<char>, TypeView>, root: Die, dies: Seq<Die>) -> Map<
    Seq<char>,
    TypeView,
>
    decreases dies.len(),
{
    if dies.len() == 0 {
        acc
    } else {
        let m = add_types(acc, root, dies.drop_last());
        match type_entry(root, dies.last()) {
            Some(t) => m.insert(t.0, t),
            None => m,
        }
    }
}

/// The derived types of all the entries of `units`, unit by unit.
pub open spec fn types_spec(units: Seq<DwarfUnit>) -> Map<Seq<char>, TypeView>
    decreases units.len(),
{
    if units.len() == 0 {
        Map::empty()
    } else {
        add_types(types_spec(units.drop_last()), units.last().root, preorder(units.last().root, -1))
    }
}

proof fn lemma_add_types_append(acc: Map<Seq<char>, TypeView>, root: Die, a: Seq<Die>, b: Seq<Die>)
    ensures
        add_types(acc, root, a + b) == add_types(add_types(acc, root, a), root, b),
    decreases b.len(),
{
    if b.len() == 0 {
        assert(a + b =~= a);
    } else {
        assert((a + b).drop_last() =~= a + b.drop_last());
        lemma_add_types_append(acc, root, a, b.drop_last());
    }
}

/// The members of the structure entry `d`.
fn struct_members(unit: &DwarfUnit, d: &Die) -> (r: Vec<Variable>)
    ensures
        r@.map_values(|v: Variable| var_view(v)) == members_spec(unit.root, d.children@),
{
    let no_locations: Vec<(u64, i64)> = Vec::new();
    let mut members: Vec<Variable> = Vec::new();
    let ghost kids = d.children@;
    let mut i: usize = 0;
    proof {
        assert(kids.take(0) =~= Seq::<Die>::empty());
        assert(members@.map_values(|v: Variable| var_view(v)) =~= seq![]);
    }
    while i < d.children.len()
        invariant
            kids == d.children@,
            no_locations@ == Seq::<(u64, i64)>::empty(),
            i <= kids.len(),
            members@.map_values(|v: Variable| var_view(v)) == members_spec(unit.root, kids.take(i as int)),
        decreases kids.len() - i,
    {
        let child = &d.children[i];
        proof {
            assert(kids.take(i + 1).drop_last() =~= kids.take(i as int));
        }
        if child.tag == TAG_MEMBER {
            match process_variable(unit, &no_locations, child) {
                Some(v) => {
                    let ghost before = members@;
                    members.push(v);
                    proof {
                        assert(members@.map_values(|v: Variable| var_view(v)) =~= before.map_values(
                            |v: Variable| var_view(v),
                        ).push(var_view(v)));
                    }
                },
                None => {},
            }
        }
        i = i + 1;
    }
    proof {
        assert(kids.take(i as int) =~= kids);
    }
    members
}

/// Adds to `types` the derived type that the entry `d` describes, if any,
/// then those of the entries nested in it, in depth-first order.
fn visit_types(unit: &DwarfUnit, d: &Die, types: &mut TypeTable)
    requires
        old(types).wf(),
    ensures
        final(types).wf(),
        types_view(final(types)@) == add_types(types_view(old(types)@), unit.root, preorder(*d, -1)),
    decreases *d,
{
    let ghost root = unit.root;
    let ghost start = types_view(types@);
    if d.tag == TAG_TYPEDEF || d.tag == TAG_STRUCTURE_TYPE || d.tag == TAG_POINTER_TYPE {
        let members: Vec<Variable> = if d.tag == TAG_STRUCTURE_TYPE {
            struct_members(unit, d)
        } else {
            Vec::new()
        };
        proof {
            if d.tag != TAG_STRUCTURE_TYPE {
                assert(members@.map_values(|v: Variable| var_view(v)) =~= seq![]);
            }
        }
        match die_name(d) {
            Some(name) => {
                let base = type_of(&unit.root, d);
                let base_type = match base {
                    Some(b) => b,
                    None => String::new(),
                };
                if base_type.unicode_len() > 0 || members.len() > 0 {
                    let key = name.clone();
                    let t = DerivedType { name, base_type, members };
                    types.insert(key, t);
                    proof {
                        assert(types_view(types@) =~= start.insert(type_view(t).0, type_view(t)));
                    }
                }
            },
            None => {},
        }
    }
    proof {
        assert(seq![*d].drop_last() =~= Seq::<Die>::empty());
        assert(add_types(start, root, Seq::<Die>::empty()) == start);
        assert(types_view(types@) == add_types(start, root, seq![*d]));
    }
    let ghost target = add_types(start, root, preorder(*d, -1));
    proof {
        lemma_add_types_append(start, root, seq![*d], preorder(*d, 0));
    }
    let mut i: usize = 0;
    while i < d.children.len()
        invariant
            types.wf(),
            root == unit.root,
            i <= d.children@.len(),
            add_types(types_view(types@), root, preorder(*d, i as int)) == target,
        decreases d.children@.len() - i,
    {
        let ghost before = types_view(types@);
        visit_types(unit, &d.children[i], types);
        proof {
            lemma_add_types_append(before, root, preorder(d.children@[i as int], -1), preorder(*d, i + 1));
        }
        i = i + 1;
    }
}

/// Builds the table of derived types from every entry of every unit:
/// typedefs and pointer types with the name of the type they stand for,
/// structures with their members.
pub fn get_types(units: &Vec<DwarfUnit>) -> (r: TypeTable)
    ensures
        r.wf(),
        types_view(r@) == types_spec(units@),
{
    let mut types: TypeTable = NameMap::new();
    let mut k: usize = 0;
    proof {
        assert(units@.take(0) =~= Seq::<DwarfUnit>::empty());
        assert(types_view(types@) =~= Map::empty());
    }
    while k < units.len()
        invariant
            k <= units@.len(),
            types.wf(),
            types_view(types@) == types_spec(units@.take(k as int)),
        decreases units@.len() - k,
    {
        visit_types(&units[k], &units[k].root, &mut types);
        proof {
            assert(units@.take(k + 1).drop_last() =~= units@.take(k as int));
        }
        k = k + 1;
    }
    proof {
        assert(units@.take(k as int) =~= units@);
    }
    types
}

} // verus!
