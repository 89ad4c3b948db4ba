//! What the interpreter shows for a typed value in the child's memory: lines
//! of text, each possibly followed by a value that is read from the child.

use vstd::prelude::*;
use crate::primitive::{primitive_of, primitive_spec, Primitive};
use crate::program::{DerivedType, TypeTable, Variable};
use crate::table::lemma_map_of_size;

verus! {

/// A read of `count` values of a primitive type at `address`.
#[derive(Clone, Copy, Debug, PartialEq, Eq, Structural)]
pub struct Read {
    pub address: u64,
    pub prim: Primitive,
    pub count: usize,
}

/// One line of output: `text`, then the value of `read` if there is one.
#[derive(Clone, Debug)]
pub struct Line {
    pub text: String,
    pub read: Option<Read>,
}

pub open spec fn line_view(l: Line) -> (Seq<char>, Option<Read>) {
    (l.text@, l.read)
}

pub open spec fn lines_view(ls: Seq<Line>) -> Seq<(Seq<char>, Option<Read>)> {
    ls.map_values(|l: Line| line_view(l))
}

/// The address `offset` bytes away from `base`, in 64-bit arithmetic.
pub open spec fn offset_address(base: u64, offset: i64) -> u64 {
    vstd::wrapping::u64_specs::wrapping_add_signed(base, offset)
}

pub open spec fn header(indent: Seq<char>, ty: Seq<char>, name: Seq<char>) -> Seq<char> {
    indent + ty + seq![' '] + name + seq![':', ' ']
}

/// The lines shown for the value `name` of type `ty` at `addr`. A primitive
/// is read on its header line; a structure lists its members, and a typedef
/// or pointer type the type it stands for, one level further indented. With
/// no nesting left (`fuel`), a type is taken to contain itself.
pub open spec fn lines_for(
    indent: Seq<char>,
    name: Seq<char>,
    ty: Seq<char>,
    addr: u64,
    types: Map<Seq<char>, DerivedType>,
    fuel: nat,
) -> Seq<(Seq<char>, Option<Read>)>
    decreases fuel, 0nat,
{
    let h = header(indent, ty, name);
    match primitive_spec(ty) {
        Some(p) => seq![(h, Some(Read { address: addr, prim: p, count: 1 }))],
        None => {
            if !types.contains_key(ty) {
                seq![(h + "unknown type"@, None)]
            } else if fuel == 0 {
                seq![(h + "cyclic type"@, None)]
            } else {
                let dt = types[ty];
                let inner = seq![' ', ' '] + indent;
                seq![(h, None)] + if dt.members@.len() > 0 {
                    member_lines(inner, dt.members@, addr, types, (fuel - 1) as nat)
                } else {
                    lines_for(inner, name, dt.base_type@, addr, types, (fuel - 1) as nat)
                }
            }
        },
    }
}

/// The lines of the members `ms` of a structure at `addr`, in order.
pub open spec fn member_lines(
    indent: Seq<char>,
    ms: Seq<Variable>,
    addr: u64,
    types: Map<Seq<char>, DerivedType>,
    fuel: nat,
) -> Seq<(Seq<char>, Option<Read>)>
    decreases fuel, ms.len(),
{
    if ms.len() == 0 {
        seq![]
    } else {
        let m = ms.last();
        member_lines(indent, ms.drop_last(), addr, types, fuel) + lines_for(
            indent,
            m.name@,
            m.ty_name@,
            offset_address(addr, m.offset),
            types,
            fuel,
        )
    }
}

fn header_text(indent: &str, ty: &str, name: &str) -> (r: String)
    ensures
        r@ == header(indent@, ty@, name@),
{
    let mut s = String::from_str(indent);
    s.append(ty);
    s.append(" ");
    s.append(name);
    s.append(": ");
    proof {
        reveal_strlit(" ");
        reveal_strlit(": ");
        assert(s@ =~= header(indent@, ty@, name@));
    }
    s
}

/// Appends to `out` the lines shown for the value `varname` of type `ty` at
/// `addr`, each prefixed by `indent`.
pub fn print_struct(
    indent: &str,
    varname: &str,
    ty: &str,
    addr: u64,
    types: &TypeTable,
    fuel: usize,
    out: &mut Vec<Line>,
)
    requires
        types.wf(),
    ensures
        lines_view(final(out)@) == lines_view(old(out)@) + lines_for(indent@, varname@, ty@, addr, types@, fuel as nat),
    decreases fuel,
{
    let ghost start = lines_view(out@);
    let h = header_text(indent, ty, varname);
    match primitive_of(ty) {
        Some(p) => {
            out.push(Line { text: h, read: Some(Read { address: addr, prim: p, count: 1 }) });
            proof {
                assert(lines_view(out@) =~= start + lines_for(indent@, varname@, ty@, addr, types@, fuel as nat));
            }
        },
        None => match types.get(ty) {
            None => {
                let mut t = h;
                t.append("unknown type");
                out.push(Line { text: t, read: None });
                proof {
                    assert(lines_view(out@) =~= start + lines_for(indent@, varname@, ty@, addr, types@, fuel as nat));
                }
            },
            Some(dt) => {
                if fuel == 0 {
                    let mut t = h;
                    t.append("cyclic type");
                    out.push(Line { text: t, read: None });
                    proof {
                        assert(lines_view(out@) =~= start + lines_for(indent@, varname@, ty@, addr, types@, fuel as nat));
                    }
                    return;
                }
                out.push(Line { text: h, read: None });
                let mut inner = String::from_str("  ");
                inner.append(indent);
                proof {
                    reveal_strlit("  ");
                    assert(inner@ =~= seq![' ', ' '] + indent@);
                }
                let ghost head = lines_view(out@);
                proof {
                    assert(head =~= start + seq![(header(indent@, ty@, varname@), None::<Read>)]);
                }
                if dt.members.len() > 0 {
                    let ghost ms = dt.members@;
                    let mut i: usize = 0;
                    while i < dt.members.len()
                        invariant
                            types.wf(),
                            0 < fuel,
                            ms == dt.members@,
                            i <= ms.len(),
                            lines_view(out@) == head + member_lines(inner@, ms.take(i as int), addr, types@, (fuel - 1) as nat),
                        decreases ms.len() - i,
                    {
                        let m = &dt.members[i];
                        let ghost before = lines_view(out@);
                        print_struct(
                            inner.as_str(),
                            m.name.as_str(),
                            m.ty_name.as_str(),
                            addr.wrapping_add_signed(m.offset),
                            types,
                            fuel - 1,
                            out,
                        );
                        proof {
                            assert(ms.take(i + 1).drop_last() =~= ms.take(i as int));
                            assert(lines_view(out@) =~= head + member_lines(inner@, ms.take(i + 1), addr, types@, (fuel - 1) as nat));
                        }
                        i = i + 1;
                    }
                    proof {
                        assert(ms.take(i as int) =~= ms);
                        assert(lines_view(out@) =~= start + lines_for(indent@, varname@, ty@, addr, types@, fuel as nat));
                    }
                } else {
                    print_struct(inner.as_str(), varname, dt.base_type.as_str(), addr, types, fuel - 1, out);
                    proof {
                        assert(lines_view(out@) =~= start + lines_for(indent@, varname@, ty@, addr, types@, fuel as nat));
                    }
                }
            },
        },
    }
}

/// The lines shown by a direct read of `count` values of type `ty` at
/// `addr`: typedefs and pointer types are followed to a primitive, which is
/// read on one line; one value of a structure is shown member by member, as
/// `print` shows it; several values of a structure cannot be read.
pub open spec fn read_lines(
    addr: u64,
    count: usize,
    ty: Seq<char>,
    types: Map<Seq<char>, DerivedType>,
    fuel: nat,
) -> Seq<(Seq<char>, Option<Read>)>
    decreases fuel,
{
    match primitive_spec(ty) {
        Some(p) => seq![(seq![], Some(Read { address: addr, prim: p, count }))],
        None => {
            if !types.contains_key(ty) {
                seq![("unknown type"@, None)]
            } else if types[ty].members@.len() > 0 && count != 1 {
                seq![("cannot read structs yet"@, None)]
            } else if fuel == 0 {
                seq![("cyclic type"@, None)]
            } else if types[ty].members@.len() > 0 {
                member_lines(seq![], types[ty].members@, addr, types, (fuel - 1) as nat)
            } else {
                read_lines(addr, count, types[ty].base_type@, types, (fuel - 1) as nat)
            }
        },
    }
}

/// Appends to `out` the lines of the members `ms` of a structure at `addr`.
fn print_members(indent: &str, ms: &Vec<Variable>, addr: u64, types: &TypeTable, fuel: usize, out: &mut Vec<Line>)
    requires
        types.wf(),
    ensures
        lines_view(final(out)@) == lines_view(old(out)@) + member_lines(indent@, ms@, addr, types@, fuel as nat),
{
    let ghost start = lines_view(out@);
    let mut i: usize = 0;
    proof {
        assert(ms@.take(0) =~= Seq::<Variable>::empty());
        assert(lines_view(out@) =~= start + member_lines(indent@, ms@.take(0), addr, types@, fuel as nat));
    }
    while i < ms.len()
        invariant
            types.wf(),
            i <= ms@.len(),
            lines_view(out@) == start + member_lines(indent@, ms@.take(i as int), addr, types@, fuel as nat),
        decreases ms@.len() - i,
    {
        let m = &ms[i];
        print_struct(indent, m.name.as_str(), m.ty_name.as_str(), addr.wrapping_add_signed(m.offset), types, fuel, out);
        proof {
            assert(ms@.take(i + 1).drop_last() =~= ms@.take(i as int));
            assert(lines_view(out@) =~= start + member_lines(indent@, ms@.take(i + 1), addr, types@, fuel as nat));
        }
        i = i + 1;
    }
    proof {
        assert(ms@.take(i as int) =~= ms@);
    }
}

/// Appends to `out` the lines shown by a direct read of `count` values of
/// type `ty` at `address`.
pub fn read_ptr(address: u64, count: usize, ty: &str, types: &TypeTable, fuel: usize, out: &mut Vec<Line>)
    requires
        types.wf(),
    ensures
        lines_view(final(out)@) == lines_view(old(out)@) + read_lines(address, count, ty@, types@, fuel as nat),
    decreases fuel,
{
    let ghost start = lines_view(out@);
    match primitive_of(ty) {
        Some(p) => {
            out.push(Line { text: String::new(), read: Some(Read { address, prim: p, count }) });
        },
        None => match types.get(ty) {
            None => {
                out.push(Line { text: String::from_str("unknown type"), read: None });
            },
            Some(dt) => {
                if dt.members.len() > 0 && count != 1 {
                    out.push(Line { text: String::from_str("cannot read structs yet"), read: None });
                } else if fuel == 0 {
                    out.push(Line { text: String::from_str("cyclic type"), read: None });
                } else if dt.members.len() > 0 {
                    proof {
                        reveal_strlit("");
                        assert(""@ =~= Seq::<char>::empty());
                    }
                    print_members("", &dt.members, address, types, fuel - 1, out);
                    return;
                } else {
                    read_ptr(address, count, dt.base_type.as_str(), types, fuel - 1, out);
                    return;
                }
            },
        },
    }
    proof {
        assert(lines_view(out@) =~= start + read_lines(address, count, ty@, types@, fuel as nat));
    }
}

/// The lines shown by `print` for the variable `name` of type `ty` stored at
/// `addr`. Types may nest as deep as the table has entries: deeper nesting
/// can only come from a type that contains itself.
pub fn render_variable(name: &str, ty: &str, addr: u64, types: &TypeTable) -> (r: Vec<Line>)
    requires
        types.wf(),
    ensures
        lines_view(r@) == lines_for(seq![], name@, ty@, addr, types@, types.entries@.len() as nat),
{
    let mut out: Vec<Line> = Vec::new();
    proof {
        reveal_strlit("");
    }
    print_struct("", name, ty, addr, types, types.len(), &mut out);
    proof {
        assert(lines_view(Seq::<Line>::empty()) =~= seq![]);
        assert(lines_view(out@) =~= lines_for(seq![], name@, ty@, addr, types@, types.entries@.len() as nat));
    }
    out
}

/// The lines shown by `read` for `count` values of type `ty` at `address`.
pub fn render_read(address: u64, count: usize, ty: &str, types: &TypeTable) -> (r: Vec<Line>)
    requires
        types.wf(),
    ensures
        lines_view(r@) == read_lines(address, count, ty@, types@, types.entries@.len() as nat),
{
    let mut out: Vec<Line> = Vec::new();
    read_ptr(address, count, ty, types, types.len(), &mut out);
    proof {
        assert(lines_view(Seq::<Line>::empty()) =~= seq![]);
        assert(lines_view(out@) =~= read_lines(address, count, ty@, types@, types.entries@.len() as nat));
    }
    out
}

proof fn lemma_member_lines_hold(
    indent: Seq<char>,
    ms: Seq<Variable>,
    addr: u64,
    types: Map<Seq<char>, DerivedType>,
    fuel: nat,
    k: int,
)
    requires
        0 <= k < ms.len(),
    ensures
        member_lines(indent, ms, addr, types, fuel).contains(
            lines_for(indent, ms[k].name@, ms[k].ty_name@, offset_address(addr, ms[k].offset), types, fuel)[0],
        ),
    decreases ms.len(),
{
    let m = ms[k];
    let block = lines_for(indent, m.name@, m.ty_name@, offset_address(addr, m.offset), types, fuel);
    let prefix = member_lines(indent, ms.drop_last(), addr, types, fuel);
    assert(block.len() > 0);
    if k == ms.len() - 1 {
        assert(member_lines(indent, ms, addr, types, fuel)[prefix.len() as int] == block[0]);
    } else {
        assert(ms.drop_last()[k] == m);
        lemma_member_lines_hold(indent, ms.drop_last(), addr, types, fuel, k);
        let j = choose|j: int| 0 <= j < prefix.len() && prefix[j] == block[0];
        assert(member_lines(indent, ms, addr, types, fuel)[j] == block[0]);
    }
}

/// Showing a structure `ty` at `addr` reads each member `m` of primitive
/// type at `addr + offset(m)`, one value of that type, so the bytes
/// `[addr + offset(m), addr + offset(m) + width)`.
#[verifier::rlimit(50)]
pub proof fn lemma_struct_member_read(
    indent: Seq<char>,
    name: Seq<char>,
    ty: Seq<char>,
    addr: u64,
    types: Map<Seq<char>, DerivedType>,
    fuel: nat,
    k: int,
)
    requires
        primitive_spec(ty) is None,
        types.contains_key(ty),
        0 <= k < types[ty].members@.len(),
        primitive_spec(types[ty].members@[k].ty_name@) is Some,
        fuel > 0,
    ensures
        ({
            let m = types[ty].members@[k];
            lines_for(indent, name, ty, addr, types, fuel).contains(
                (
                    header(seq![' ', ' '] + indent, m.ty_name@, m.name@),
                    Some(
                        Read {
                            address: offset_address(addr, m.offset),
                            prim: primitive_spec(m.ty_name@)->0,
                            count: 1,
                        },
                    ),
                ),
            )
        }),
{
    let dt = types[ty];
    let inner = seq![' ', ' '] + indent;
    let ml = member_lines(inner, dt.members@, addr, types, (fuel - 1) as nat);
    lemma_member_lines_hold(inner, dt.members@, addr, types, (fuel - 1) as nat, k);
    let whole = lines_for(indent, name, ty, addr, types, fuel);
    assert(whole == seq![(header(indent, ty, name), None::<Read>)] + ml);
    let m = dt.members@[k];
    let target = lines_for(inner, m.name@, m.ty_name@, offset_address(addr, m.offset), types, (fuel - 1) as nat)[0];
    let j = choose|j: int| 0 <= j < ml.len() && ml[j] == target;
    assert(whole[j + 1] == target);
}

/// `ty` leads through `k` typedef or pointer entries, none of them a
/// primitive name or a structure.
pub open spec fn typedef_chain(types: Map<Seq<char>, DerivedType>, ty: Seq<char>, k: nat) -> bool
    decreases k,
{
    if k == 0 {
        true
    } else {
        &&& primitive_spec(ty) is None
        &&& types.contains_key(ty)
        &&& types[ty].members@.len() == 0
        &&& typedef_chain(types, types[ty].base_type@, (k - 1) as nat)
    }
}

/// The type reached after `k` steps of the chain from `ty`.
pub open spec fn chain_end(types: Map<Seq<char>, DerivedType>, ty: Seq<char>, k: nat) -> Seq<char>
    decreases k,
{
    if k == 0 {
        ty
    } else {
        chain_end(types, types[ty].base_type@, (k - 1) as nat)
    }
}

/// Reading through a chain of typedefs that ends in a primitive reads the
/// same bytes, and shows them the same way, as reading the primitive.
pub proof fn lemma_typedef_read_transitive(
    addr: u64,
    count: usize,
    ty: Seq<char>,
    types: Map<Seq<char>, DerivedType>,
    k: nat,
    fuel: nat,
)
    requires
        typedef_chain(types, ty, k),
        primitive_spec(chain_end(types, ty, k)) is Some,
        k <= fuel,
    ensures
        read_lines(addr, count, ty, types, fuel) == read_lines(addr, count, chain_end(types, ty, k), types, fuel),
        read_lines(addr, count, ty, types, fuel) == seq![
            (
                Seq::<char>::empty(),
                Some(Read { address: addr, prim: primitive_spec(chain_end(types, ty, k))->0, count }),
            ),
        ],
    decreases k,
{
    if k > 0 {
        lemma_typedef_read_transitive(addr, count, types[ty].base_type@, types, (k - 1) as nat, (fuel - 1) as nat);
    }
}

/// Showing a value through a chain of typedefs that ends in a primitive
/// ends with the line that reads the primitive: the same read at the same
/// address as showing the primitive itself.
pub proof fn lemma_typedef_print_transitive(
    indent: Seq<char>,
    name: Seq<char>,
    ty: Seq<char>,
    addr: u64,
    types: Map<Seq<char>, DerivedType>,
    k: nat,
    fuel: nat,
)
    requires
        typedef_chain(types, ty, k),
        primitive_spec(chain_end(types, ty, k)) is Some,
        k <= fuel,
    ensures
        lines_for(indent, name, ty, addr, types, fuel).len() == k + 1,
        lines_for(indent, name, ty, addr, types, fuel).last().1 == lines_for(
            indent,
            name,
            chain_end(types, ty, k),
            addr,
            types,
            fuel,
        ).last().1,
        lines_for(indent, name, ty, addr, types, fuel).last().1 == Some(
            Read { address: addr, prim: primitive_spec(chain_end(types, ty, k))->0, count: 1 },
        ),
    decreases k,
{
    if k > 0 {
        lemma_typedef_print_transitive(
            seq![' ', ' '] + indent,
            name,
            types[ty].base_type@,
            addr,
            types,
            (k - 1) as nat,
            (fuel - 1) as nat,
        );
    }
}


/// The reads among `ls`, in order.
pub open spec fn reads_of(ls: Seq<(Seq<char>, Option<Read>)>) -> Seq<Read>
    decreases ls.len(),
{
    if ls.len() == 0 {
        seq![]
    } else {
        match ls.last().1 {
            Some(r) => reads_of(ls.drop_last()).push(r),
            None => reads_of(ls.drop_last()),
        }
    }
}

proof fn lemma_reads_of_single(x: (Seq<char>, Option<Read>))
    ensures
        reads_of(seq![x]) == match x.1 {
            Some(r) => seq![r],
            None => Seq::<Read>::empty(),
        },
{
    assert(seq![x].drop_last() =~= Seq::<(Seq<char>, Option<Read>)>::empty());
    assert(reads_of(Seq::<(Seq<char>, Option<Read>)>::empty()) == Seq::<Read>::empty());
    assert(Seq::<Read>::empty().push(x.1->0) =~= seq![x.1->0]);
}

proof fn lemma_reads_of_append(a: Seq<(Seq<char>, Option<Read>)>, b: Seq<(Seq<char>, Option<Read>)>)
    ensures
        reads_of(a + b) == reads_of(a) + reads_of(b),
    decreases b.len(),
{
    if b.len() == 0 {
        assert(a + b =~= a);
        assert(reads_of(a) + reads_of(b) =~= reads_of(a));
    } else {
        assert((a + b).drop_last() =~= a + b.drop_last());
        lemma_reads_of_append(a, b.drop_last());
        match b.last().1 {
            Some(r) => {
                assert((reads_of(a) + reads_of(b.drop_last())).push(r) =~= reads_of(a) + reads_of(b.drop_last()).push(r));
            },
            None => {},
        }
    }
}

/// The reads made to show one value of type `ty` at `addr`, whatever the
/// indentation and name it is shown with.
pub open spec fn value_reads(ty: Seq<char>, addr: u64, types: Map<Seq<char>, DerivedType>, fuel: nat) -> Seq<Read>
    decreases fuel, 0nat,
{
    match primitive_spec(ty) {
        Some(p) => seq![Read { address: addr, prim: p, count: 1 }],
        None => {
            if !types.contains_key(ty) || fuel == 0 {
                seq![]
            } else if types[ty].members@.len() > 0 {
                member_reads(types[ty].members@, addr, types, (fuel - 1) as nat)
            } else {
                value_reads(types[ty].base_type@, addr, types, (fuel - 1) as nat)
            }
        },
    }
}

pub open spec fn member_reads(ms: Seq<Variable>, addr: u64, types: Map<Seq<char>, DerivedType>, fuel: nat) -> Seq<
    Read,
>
    decreases fuel, ms.len(),
{
    if ms.len() == 0 {
        seq![]
    } else {
        let m = ms.last();
        member_reads(ms.drop_last(), addr, types, fuel) + value_reads(
            m.ty_name@,
            offset_address(addr, m.offset),
            types,
            fuel,
        )
    }
}

proof fn lemma_lines_reads(
    indent: Seq<char>,
    name: Seq<char>,
    ty: Seq<char>,
    addr: u64,
    types: Map<Seq<char>, DerivedType>,
    fuel: nat,
)
    ensures
        reads_of(lines_for(indent, name, ty, addr, types, fuel)) == value_reads(ty, addr, types, fuel),
    decreases fuel, 0nat,
{
    let h = header(indent, ty, name);
    let inner = seq![' ', ' '] + indent;
    match primitive_spec(ty) {
        Some(p) => {
            lemma_reads_of_single((h, Some(Read { address: addr, prim: p, count: 1 })));
        },
        None => {
            if !types.contains_key(ty) || fuel == 0 {
                let l = lines_for(indent, name, ty, addr, types, fuel);
                lemma_reads_of_single(l[0]);
                assert(l =~= seq![l[0]]);
            } else {
                let dt = types[ty];
                let first = seq![(h, None::<Read>)];
                lemma_reads_of_single((h, None::<Read>));
                if dt.members@.len() > 0 {
                    let rest = member_lines(inner, dt.members@, addr, types, (fuel - 1) as nat);
                    lemma_member_lines_reads(inner, dt.members@, addr, types, (fuel - 1) as nat);
                    lemma_reads_of_append(first, rest);
                    assert(reads_of(first) + reads_of(rest) =~= reads_of(rest));
                } else {
                    let rest = lines_for(inner, name, dt.base_type@, addr, types, (fuel - 1) as nat);
                    lemma_lines_reads(inner, name, dt.base_type@, addr, types, (fuel - 1) as nat);
                    lemma_reads_of_append(first, rest);
                    assert(reads_of(first) + reads_of(rest) =~= reads_of(rest));
                }
            }
        },
    }
}

proof fn lemma_member_lines_reads(
    indent: Seq<char>,
    ms: Seq<Variable>,
    addr: u64,
    types: Map<Seq<char>, DerivedType>,
    fuel: nat,
)
    ensures
        reads_of(member_lines(indent, ms, addr, types, fuel)) == member_reads(ms, addr, types, fuel),
    decreases fuel, ms.len(),
{
    if ms.len() > 0 {
        let m = ms.last();
        lemma_member_lines_reads(indent, ms.drop_last(), addr, types, fuel);
        lemma_lines_reads(indent, m.name@, m.ty_name@, offset_address(addr, m.offset), types, fuel);
        lemma_reads_of_append(
            member_lines(indent, ms.drop_last(), addr, types, fuel),
            lines_for(indent, m.name@, m.ty_name@, offset_address(addr, m.offset), types, fuel),
        );
    }
}

proof fn lemma_read_one_reads(addr: u64, ty: Seq<char>, types: Map<Seq<char>, DerivedType>, fuel: nat)
    ensures
        reads_of(read_lines(addr, 1, ty, types, fuel)) == value_reads(ty, addr, types, fuel),
    decreases fuel,
{
    let l = read_lines(addr, 1, ty, types, fuel);
    match primitive_spec(ty) {
        Some(p) => {
            lemma_reads_of_single(l[0]);
            assert(l =~= seq![l[0]]);
        },
        None => {
            if !types.contains_key(ty) || fuel == 0 {
                lemma_reads_of_single(l[0]);
                assert(l =~= seq![l[0]]);
            } else if types[ty].members@.len() > 0 {
                lemma_member_lines_reads(seq![], types[ty].members@, addr, types, (fuel - 1) as nat);
            } else {
                lemma_read_one_reads(addr, types[ty].base_type@, types, (fuel - 1) as nat);
            }
        },
    }
}

/// Showing a value of any type `ty` at `addr` reads exactly what a direct
/// read of one value of type `ty` at `addr` reads, in the same order: the
/// same bytes, shown in the same way.
pub proof fn lemma_print_reads_as_read_one(
    indent: Seq<char>,
    name: Seq<char>,
    ty: Seq<char>,
    addr: u64,
    types: Map<Seq<char>, DerivedType>,
    fuel: nat,
)
    ensures
        reads_of(lines_for(indent, name, ty, addr, types, fuel)) == reads_of(read_lines(addr, 1, ty, types, fuel)),
{
    lemma_lines_reads(indent, name, ty, addr, types, fuel);
    lemma_read_one_reads(addr, ty, types, fuel);
}


proof fn lemma_chain_end_add(types: Map<Seq<char>, DerivedType>, ty: Seq<char>, a: nat, b: nat)
    ensures
        chain_end(types, ty, a + b) == chain_end(types, chain_end(types, ty, a), b),
    decreases a,
{
    if a > 0 {
        lemma_chain_end_add(types, types[ty].base_type@, (a - 1) as nat, b);
        assert((a + b - 1) as nat == (a - 1) as nat + b);
    }
}

proof fn lemma_chain_prefix(types: Map<Seq<char>, DerivedType>, ty: Seq<char>, k: nat, i: nat)
    requires
        typedef_chain(types, ty, k),
        i < k,
    ensures
        primitive_spec(chain_end(types, ty, i)) is None,
        types.dom().contains(chain_end(types, ty, i)),
    decreases i,
{
    if i > 0 {
        lemma_chain_prefix(types, types[ty].base_type@, (k - 1) as nat, (i - 1) as nat);
    }
}

proof fn lemma_chain_repeats(types: Map<Seq<char>, DerivedType>, ty: Seq<char>, i: nat, j: nat, n: nat)
    requires
        i < j,
        chain_end(types, ty, i) == chain_end(types, ty, j),
        i <= n,
    ensures
        exists|l: nat| i <= l < j && chain_end(types, ty, n) == #[trigger] chain_end(types, ty, l),
    decreases n,
{
    if n < j {
        assert(chain_end(types, ty, n) == chain_end(types, ty, n));
    } else {
        let d = (j - i) as nat;
        let m = (n - j) as nat;
        lemma_chain_end_add(types, ty, j, m);
        lemma_chain_end_add(types, ty, i, m);
        assert(n == j + m);
        lemma_chain_repeats(types, ty, i, j, (i + m) as nat);
    }
}

/// A chain of typedefs that ends in a primitive passes through distinct
/// entries of the table, so it is no longer than the table.
proof fn lemma_chain_fits(types: Map<Seq<char>, DerivedType>, ty: Seq<char>, k: nat)
    requires
        typedef_chain(types, ty, k),
        primitive_spec(chain_end(types, ty, k)) is Some,
        types.dom().finite(),
    ensures
        k <= types.dom().len(),
{
    let names = Seq::new(k, |i: int| chain_end(types, ty, i as nat));
    assert forall|i: int, j: int| 0 <= i < names.len() && 0 <= j < names.len() && i != j implies names[i]
        != names[j] by {
        if names[i] == names[j] {
            let (a, b) = if i < j { (i as nat, j as nat) } else { (j as nat, i as nat) };
            lemma_chain_repeats(types, ty, a, b, k);
            let l = choose|l: nat| a <= l < b && chain_end(types, ty, k) == #[trigger] chain_end(types, ty, l);
            lemma_chain_prefix(types, ty, k, l);
        }
    }
    assert(names.no_duplicates());
    names.unique_seq_to_set();
    assert forall|x: Seq<char>| names.to_set().contains(x) implies types.dom().contains(x) by {
        let i = choose|i: int| 0 <= i < names.len() && names[i] == x;
        lemma_chain_prefix(types, ty, k, i as nat);
    }
    vstd::set_lib::lemma_len_subset(names.to_set(), types.dom());
}

/// In a table, reading through a chain of typedefs that ends in a primitive
/// reads the same bytes, and shows them the same way, as reading the
/// primitive.
pub proof fn lemma_table_typedef_read(addr: u64, count: usize, ty: Seq<char>, types: TypeTable, k: nat)
    requires
        typedef_chain(types@, ty, k),
        primitive_spec(chain_end(types@, ty, k)) is Some,
    ensures
        read_lines(addr, count, ty, types@, types.entries@.len() as nat) == read_lines(
            addr,
            count,
            chain_end(types@, ty, k),
            types@,
            types.entries@.len() as nat,
        ),
{
    lemma_map_of_size(types.entries@);
    lemma_chain_fits(types@, ty, k);
    lemma_typedef_read_transitive(addr, count, ty, types@, k, types.entries@.len() as nat);
}

/// In a table, showing a value through a chain of typedefs that ends in a
/// primitive makes the one read that showing the primitive makes, at the
/// same address, after one header line for each typedef.
pub proof fn lemma_table_typedef_print(name: Seq<char>, ty: Seq<char>, addr: u64, types: TypeTable, k: nat)
    requires
        typedef_chain(types@, ty, k),
        primitive_spec(chain_end(types@, ty, k)) is Some,
    ensures
        lines_for(seq![], name, ty, addr, types@, types.entries@.len() as nat).len() == k + 1,
        lines_for(seq![], name, ty, addr, types@, types.entries@.len() as nat).last().1 == lines_for(
            seq![],
            name,
            chain_end(types@, ty, k),
            addr,
            types@,
            types.entries@.len() as nat,
        ).last().1,
{
    lemma_map_of_size(types.entries@);
    lemma_chain_fits(types@, ty, k);
    lemma_typedef_print_transitive(seq![], name, ty, addr, types@, k, types.entries@.len() as nat);
}

} // verus!
