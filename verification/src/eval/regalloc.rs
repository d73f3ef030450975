//! Packs temporaries into physical registers by linear scan.
//!
//! The code is straight-line, so a temporary's live interval is its first
//! definition to its last mention, and a free-list scan is optimal enough.
//! Constants and locals are pinned and never reused: constants because the
//! file is primed with them once, locals because an unwritten local must read
//! the NaN it was primed with.
use vstd::prelude::*;
use vstd::set_lib::*;

use super::tape::{Insn, Reg, VReg};

verus! {

/// The temporary a virtual register names, if it names one.
pub open spec fn temp_of(reg: VReg) -> Option<u32> {
    match reg {
        VReg::Temp(t) => Some(t),
        _ => None,
    }
}

/// Instruction `insn` writes temporary `t`.
pub open spec fn defines(insn: Insn<VReg>, t: u32) -> bool {
    insn.spec_dst() == Some(VReg::Temp(t))
}

/// Instruction `insn` names temporary `t`, as destination or source.
pub open spec fn names_temp(insn: Insn<VReg>, t: u32) -> bool {
    insn.spec_mentions().contains(VReg::Temp(t))
}

/// Temporary `t` holds a value at instruction `k`: some instruction at or
/// before `k` wrote it, and it is named at or after `k`, or it is the result,
/// which the caller reads after the last instruction.
pub open spec fn live_at(insns: Seq<Insn<VReg>>, result: VReg, t: u32, k: int) -> bool {
    &&& exists|j: int| 0 <= j <= k && j < insns.len() && #[trigger] defines(insns[j], t)
    &&& (result == VReg::Temp(t) || exists|j: int|
        k <= j < insns.len() && #[trigger] names_temp(insns[j], t))
}

/// Whether `reg` is a register a tape of `consts` constants, `locals` locals
/// and temporaries numbered below `temp_limit` may name.
pub open spec fn register_in_class(reg: VReg, consts: u16, locals: u16, temp_limit: int) -> bool {
    match reg {
        VReg::Const(c) => c < consts,
        VReg::Local(l) => l < locals,
        VReg::Temp(t) => t < temp_limit,
    }
}

/// What allocation asks of a lowered tape.
///
/// Every register is in its class, and temporaries are few enough that the
/// packed file fits `u16`; every temporary read is written by that instruction
/// or an earlier one, and so is the result; and no instruction other than a
/// fold step reads the register it writes.
pub open spec fn well_formed(
    insns: Seq<Insn<VReg>>,
    result: VReg,
    consts: u16,
    locals: u16,
) -> bool {
    let temp_limit = u16::MAX - consts - locals;
    &&& consts + locals <= u16::MAX
    &&& insns.len() < usize::MAX
    &&& register_in_class(result, consts, locals, temp_limit)
    &&& forall|i: int, k: int|
        0 <= i < insns.len() && 0 <= k < insns[i].spec_mentions().len() ==> register_in_class(
            #[trigger] insns[i].spec_mentions()[k],
            consts,
            locals,
            temp_limit,
        )
    &&& forall|i: int, k: int|
        0 <= i < insns.len() && 0 <= k < insns[i].spec_sources().len() && (#[trigger] insns[i].spec_sources()[k]) is Temp
            ==> exists|j: int| 0 <= j <= i && #[trigger] defines(insns[j], insns[i].spec_sources()[k]->Temp_0)
    &&& forall|t: u32|
        result == VReg::Temp(t) ==> exists|j: int| 0 <= j < insns.len() && #[trigger] defines(insns[j], t)
    &&& forall|i: int|
        0 <= i < insns.len() && !insns[i].is_combine() && #[trigger] insns[i].spec_dst() is Some
            ==> !insns[i].spec_sources().contains(insns[i].spec_dst()->0)
}

/// The physical register a virtual one is given, under a slot per temporary.
pub open spec fn physical(reg: VReg, slot: Seq<u16>, consts: u16, locals: u16) -> Reg {
    match reg {
        VReg::Const(c) => Reg(c),
        VReg::Local(l) => Reg((consts + l) as u16),
        VReg::Temp(t) => Reg((consts + locals + slot[t as int]) as u16),
    }
}

/// `out` is `insn` with every register replaced by its physical one.
pub open spec fn maps_physically(
    insn: Insn<VReg>,
    out: Insn<Reg>,
    slot: Seq<u16>,
    consts: u16,
    locals: u16,
) -> bool {
    insn.related(out, |v: VReg, r: Reg| r == physical(v, slot, consts, locals))
}

/// `allocated` is `insns` with every register replaced by its physical one,
/// under one slot per temporary; temporaries live at the same instruction
/// never share a slot; and every register is below `registers`.
pub open spec fn allocation_by(
    insns: Seq<Insn<VReg>>,
    result: VReg,
    consts: u16,
    locals: u16,
    slot: Seq<u16>,
    allocated: Seq<Insn<Reg>>,
    result_register: Reg,
    registers: u16,
) -> bool {
    &&& allocated.len() == insns.len()
    &&& forall|i: int|
        0 <= i < insns.len() ==> #[trigger] maps_physically(insns[i], allocated[i], slot, consts, locals)
    &&& result_register == physical(result, slot, consts, locals)
    &&& forall|t1: u32, t2: u32, k: int|
        t1 != t2 && live_at(insns, result, t1, k) && live_at(insns, result, t2, k) ==> slot[t1 as int]
            != slot[t2 as int]
    &&& forall|i: int, k: int|
        0 <= i < allocated.len() && 0 <= k < allocated[i].spec_mentions().len()
            ==> (#[trigger] allocated[i].spec_mentions()[k]).0 < registers
    &&& result_register.0 < registers
}


/// Under the physical mapping, an instruction keeps its shape: destination,
/// sources and mentions are the mapped ones, and a fold step stays one.
pub proof fn lemma_maps_physically_shape(
    insn: Insn<VReg>,
    out: Insn<Reg>,
    slot: Seq<u16>,
    consts: u16,
    locals: u16,
)
    requires
        maps_physically(insn, out, slot, consts, locals),
    ensures
        out.is_combine() == insn.is_combine(),
        out.spec_dst() is Some == insn.spec_dst() is Some,
        insn.spec_dst() is Some ==> out.spec_dst()->0 == physical(
            insn.spec_dst()->0,
            slot,
            consts,
            locals,
        ),
        out.spec_sources().len() == insn.spec_sources().len(),
        forall|k: int|
            0 <= k < insn.spec_sources().len() ==> #[trigger] out.spec_sources()[k] == physical(
                insn.spec_sources()[k],
                slot,
                consts,
                locals,
            ),
        out.spec_mentions().len() == insn.spec_mentions().len(),
        forall|k: int|
            0 <= k < insn.spec_mentions().len() ==> #[trigger] out.spec_mentions()[k] == physical(
                insn.spec_mentions()[k],
                slot,
                consts,
                locals,
            ),
{
}

/// The physical mapping of an instruction depends only on the slots of the
/// temporaries it names.
pub proof fn lemma_maps_physically_agree(
    insn: Insn<VReg>,
    out: Insn<Reg>,
    slot1: Seq<u16>,
    slot2: Seq<u16>,
    consts: u16,
    locals: u16,
)
    requires
        forall|k: int|
            0 <= k < insn.spec_mentions().len() && (#[trigger] insn.spec_mentions()[k]) is Temp
                ==> slot1[insn.spec_mentions()[k]->Temp_0 as int] == slot2[insn.spec_mentions()[k]->Temp_0 as int],
    ensures
        maps_physically(insn, out, slot1, consts, locals) == maps_physically(
            insn,
            out,
            slot2,
            consts,
            locals,
        ),
{
    let m = insn.spec_mentions();
    assert forall|k: int| 0 <= k < m.len() implies physical(m[k], slot1, consts, locals) == physical(
        m[k],
        slot2,
        consts,
        locals,
    ) by {
        if m[k] is Temp {
            assert(slot1[m[k]->Temp_0 as int] == slot2[m[k]->Temp_0 as int]);
        }
    }
    if m.len() > 0 {
        let _ = m[0];
    }
    if m.len() > 1 {
        let _ = m[1];
    }
    if m.len() > 2 {
        let _ = m[2];
    }
    if m.len() > 3 {
        let _ = m[3];
    }
}

/// Assigns physical registers. Returns the allocated instructions, the
/// physical result register, and the total register count.
pub fn allocate(insns: Vec<Insn<VReg>>, result: VReg, consts: u16, locals: u16) -> (allocated: (
    Vec<Insn<Reg>>,
    Reg,
    u16,
))
    requires
        well_formed(insns@, result, consts, locals),
    ensures
        allocated.2 >= consts + locals,
        exists|slot: Seq<u16>|
            allocation_by(
                insns@,
                result,
                consts,
                locals,
                slot,
                allocated.0@,
                allocated.1,
                allocated.2,
            ),
        forall|i: int|
            0 <= i < insns@.len() && !insns@[i].is_combine() && (#[trigger] allocated.0@[i]).spec_dst() is Some
                ==> !allocated.0@[i].spec_sources().contains(allocated.0@[i].spec_dst()->0),
{
    let n = insns.len();
    let base_int: Ghost<int> = Ghost(consts + locals);
    let ghost s = insns@;
    let ghost limit: int = u16::MAX - consts - locals;

    // How many temporaries there are: one past the highest named.
    let mut temps: usize = 0;
    let mut i: usize = 0;
    while i < n
        invariant
            n == s.len(),
            s == insns@,
            well_formed(s, result, consts, locals),
            limit == u16::MAX - consts - locals,
            i <= n,
            temps <= limit,
            forall|j: int, k: int|
                0 <= j < i && 0 <= k < s[j].spec_mentions().len() && (#[trigger] s[j].spec_mentions()[k]) is Temp
                    ==> s[j].spec_mentions()[k]->Temp_0 < temps,
        decreases n - i,
    {
        let named = insns[i].mentions();
        let mut k: usize = 0;
        while k < named.len()
            invariant
                n == s.len(),
                s == insns@,
                well_formed(s, result, consts, locals),
                limit == u16::MAX - consts - locals,
                i < n,
                named@ == s[i as int].spec_mentions(),
                k <= named.len(),
                temps <= limit,
                forall|j: int, kk: int|
                    0 <= j < i && 0 <= kk < s[j].spec_mentions().len() && (#[trigger] s[j].spec_mentions()[kk]) is Temp
                        ==> s[j].spec_mentions()[kk]->Temp_0 < temps,
                forall|kk: int| 0 <= kk < k && (#[trigger] named@[kk]) is Temp ==> named@[kk]->Temp_0 < temps,
            decreases named.len() - k,
        {
            if let VReg::Temp(t) = named[k] {
                assert(register_in_class(s[i as int].spec_mentions()[k as int], consts, locals, limit));
                if t as usize + 1 > temps {
                    temps = t as usize + 1;
                }
            }
            k += 1;
        }
        i += 1;
    }
    if let VReg::Temp(t) = result {
        if t as usize + 1 > temps {
            temps = t as usize + 1;
        }
    }
    assert(forall|j: int, k: int|
        0 <= j < n && 0 <= k < s[j].spec_mentions().len() && (#[trigger] s[j].spec_mentions()[k]) is Temp
            ==> s[j].spec_mentions()[k]->Temp_0 < temps);

    // First definition and last mention of every temporary. The result is
    // mentioned by nobody and read by the caller, so it lives to the end.
    let mut def: Vec<usize> = Vec::new();
    let mut last: Vec<usize> = Vec::new();
    let mut t0: usize = 0;
    while t0 < temps
        invariant
            t0 <= temps,
            def@.len() == t0,
            last@.len() == t0,
            forall|t: int| 0 <= t < t0 ==> def@[t] == usize::MAX && last@[t] == 0,
        decreases temps - t0,
    {
        def.push(usize::MAX);
        last.push(0);
        t0 += 1;
    }

    let mut i: usize = 0;
    while i < n
        invariant
            n == s.len(),
            s == insns@,
            i <= n,
            temps <= u16::MAX,
            def@.len() == temps,
            last@.len() == temps,
            forall|t: int| 0 <= t < temps ==> last@[t] <= i,
            forall|j: int, k: int|
                0 <= j < n && 0 <= k < s[j].spec_mentions().len() && (#[trigger] s[j].spec_mentions()[k]) is Temp
                    ==> s[j].spec_mentions()[k]->Temp_0 < temps,
            forall|t: u32|
                t < temps ==> (def@[t as int] == usize::MAX <==> forall|j: int|
                    0 <= j < i ==> !#[trigger] defines(s[j], t)),
            forall|t: u32|
                t < temps && def@[t as int] != usize::MAX ==> def@[t as int] < i && defines(
                    s[def@[t as int] as int],
                    t,
                ) && forall|j: int| 0 <= j < def@[t as int] ==> !#[trigger] defines(s[j], t),
            forall|t: u32|
                t < temps ==> ((exists|j: int| 0 <= j < i && #[trigger] names_temp(s[j], t))
                    ==> last@[t as int] < i && names_temp(s[last@[t as int] as int], t) && forall|j: int|
                    last@[t as int] < j < i ==> !#[trigger] names_temp(s[j], t)),
        decreases n - i,
    {
        let ghost def_before = def@;
        let ghost last_before = last@;
        proof {
            s[i as int].lemma_mentions();
        }
        let dst = insns[i].dst();
        if let Some(VReg::Temp(t)) = dst {
            proof {
                assert(s[i as int].spec_mentions()[0] == VReg::Temp(t));
            }
            let t = t as usize;
            if def[t] == usize::MAX {
                def.set(t, i);
            }
            last.set(t, i);
        }
        let sources = insns[i].sources();
        let mut k: usize = 0;
        while k < sources.len()
            invariant
                n == s.len(),
                s == insns@,
                i < n,
                temps <= u16::MAX,
                dst == s[i as int].spec_dst(),
                sources@ == s[i as int].spec_sources(),
                s[i as int].spec_mentions() == (match s[i as int].spec_dst() {
                    Some(d) => seq![d] + s[i as int].spec_sources(),
                    None => s[i as int].spec_sources(),
                }),
                k <= sources.len(),
                last@.len() == temps,
                last_before.len() == temps,
                forall|t: int| 0 <= t < temps ==> last@[t] <= i,
                forall|j: int, kk: int|
                    0 <= j < n && 0 <= kk < s[j].spec_mentions().len() && (#[trigger] s[j].spec_mentions()[kk]) is Temp
                        ==> s[j].spec_mentions()[kk]->Temp_0 < temps,
                forall|t: u32|
                    t < temps && (dst == Some(VReg::Temp(t)) || exists|kk: int|
                        0 <= kk < k && #[trigger] sources@[kk] == VReg::Temp(t)) ==> last@[t as int] == i,
                forall|t: u32|
                    t < temps && !(dst == Some(VReg::Temp(t))) && !(exists|kk: int|
                        0 <= kk < k && #[trigger] sources@[kk] == VReg::Temp(t)) ==> last@[t as int]
                        == last_before[t as int],
            decreases sources.len() - k,
        {
            if let VReg::Temp(t) = sources[k] {
                proof {
                    let off: int = if s[i as int].spec_dst() is Some { 1 } else { 0 };
                    assert(s[i as int].spec_mentions()[off + k] == VReg::Temp(t));
                }
                last.set(t as usize, i);
            }
            proof {
                assert forall|t: u32|
                    t < temps && (dst == Some(VReg::Temp(t)) || exists|kk: int|
                        0 <= kk < k + 1 && #[trigger] sources@[kk] == VReg::Temp(t)) implies last@[t as int] == i by {
                    if dst != Some(VReg::Temp(t)) && sources@[k as int] != VReg::Temp(t) {
                        let kk = choose|kk: int| 0 <= kk < k + 1 && #[trigger] sources@[kk] == VReg::Temp(t);
                        assert(0 <= kk < k);
                    }
                }
            }
            k += 1;
        }
        proof {
            assert forall|t: u32| t < temps implies (names_temp(s[i as int], t) <==> (dst == Some(
                VReg::Temp(t),
            ) || exists|kk: int| 0 <= kk < sources@.len() && #[trigger] sources@[kk] == VReg::Temp(t))) by {
                let m = s[i as int].spec_mentions();
                if names_temp(s[i as int], t) {
                    let x = choose|x: int| 0 <= x < m.len() && m[x] == VReg::Temp(t);
                    if dst != Some(VReg::Temp(t)) {
                        if dst is Some {
                            assert(sources@[x - 1] == VReg::Temp(t));
                        } else {
                            assert(sources@[x] == VReg::Temp(t));
                        }
                    }
                }
                if dst == Some(VReg::Temp(t)) {
                    assert(m[0] == VReg::Temp(t));
                }
                if exists|kk: int| 0 <= kk < sources@.len() && #[trigger] sources@[kk] == VReg::Temp(t) {
                    let kk = choose|kk: int| 0 <= kk < sources@.len() && #[trigger] sources@[kk] == VReg::Temp(t);
                    if dst is Some {
                        assert(m[kk + 1] == VReg::Temp(t));
                    } else {
                        assert(m[kk] == VReg::Temp(t));
                    }
                }
            }
            assert forall|t: u32|
                t < temps implies ((exists|j: int| 0 <= j < i + 1 && #[trigger] names_temp(s[j], t))
                    ==> last@[t as int] < i + 1 && names_temp(s[last@[t as int] as int], t) && forall|j: int|
                    last@[t as int] < j < i + 1 ==> !#[trigger] names_temp(s[j], t)) by {
                if names_temp(s[i as int], t) {
                    assert(last@[t as int] == i);
                } else {
                    assert(dst != Some(VReg::Temp(t)));
                    assert(!exists|kk: int| 0 <= kk < sources@.len() && #[trigger] sources@[kk] == VReg::Temp(t));
                    assert(last@[t as int] == last_before[t as int]);
                    if exists|j: int| 0 <= j < i + 1 && #[trigger] names_temp(s[j], t) {
                        let j = choose|j: int| 0 <= j < i + 1 && #[trigger] names_temp(s[j], t);
                        assert(j < i);
                        assert(exists|j: int| 0 <= j < i && #[trigger] names_temp(s[j], t));
                    }
                }
            }
            assert forall|t: u32|
                t < temps implies (def@[t as int] == usize::MAX <==> forall|j: int|
                    0 <= j < i + 1 ==> !#[trigger] defines(s[j], t)) by {
                if dst == Some(VReg::Temp(t)) {
                    assert(defines(s[i as int], t));
                    assert(def@[t as int] != usize::MAX);
                } else {
                    assert(!defines(s[i as int], t));
                    assert(def@[t as int] == def_before[t as int]);
                    if def@[t as int] == usize::MAX {
                        assert forall|j: int| 0 <= j < i + 1 implies !#[trigger] defines(s[j], t) by {
                            if j < i {
                            }
                        }
                    } else {
                        let j0 = def@[t as int] as int;
                        assert(defines(s[j0], t));
                    }
                }
            }
            assert forall|t: u32|
                t < temps && def@[t as int] != usize::MAX implies def@[t as int] < i + 1 && defines(
                    s[def@[t as int] as int],
                    t,
                ) && forall|j: int| 0 <= j < def@[t as int] ==> !#[trigger] defines(s[j], t) by {
                if dst == Some(VReg::Temp(t)) && def_before[t as int] == usize::MAX {
                    assert(def@[t as int] == i);
                    assert(forall|j: int| 0 <= j < i ==> !#[trigger] defines(s[j], t));
                } else {
                    assert(def@[t as int] == def_before[t as int]);
                }
            }
        }
        i += 1;
    }
    let ghost def_v = def@;
    if let VReg::Temp(t) = result {
        last.set(t as usize, n);
    }
    let ghost last_v = last@;

    // Facts about the two tables, for the scan below.
    proof {
        assert forall|j: int, k: int|
            0 <= j < n && 0 <= k < s[j].spec_mentions().len() && (#[trigger] s[j].spec_mentions()[k]) is Temp
                implies ({
                    let t = s[j].spec_mentions()[k]->Temp_0;
                    t < temps && def_v[t as int] != usize::MAX && def_v[t as int] <= j && j <= last_v[t as int]
                }) by {
            let t = s[j].spec_mentions()[k]->Temp_0;
            s[j].lemma_mentions();
            assert(names_temp(s[j], t));
            if s[j].spec_dst() == Some(VReg::Temp(t)) {
                assert(defines(s[j], t));
            } else {
                let off: int = if s[j].spec_dst() is Some { 1 } else { 0 };
                assert(s[j].spec_sources()[k - off] == VReg::Temp(t));
                let jj = choose|jj: int| 0 <= jj <= j && #[trigger] defines(s[jj], t);
                assert(!forall|x: int| 0 <= x < n ==> !#[trigger] defines(s[x], t));
            }
            if def_v[t as int] != usize::MAX && def_v[t as int] > j {
                assert(!defines(s[j], t));
            }
        }
    }

    proof {
        assert forall|t: u32| t < temps && def_v[t as int] != usize::MAX implies def_v[t as int] <= last_v[t as int]
            && (last_v[t as int] < n ==> names_temp(s[last_v[t as int] as int], t)) by {
            let j = def_v[t as int] as int;
            assert(defines(s[j], t));
            s[j].lemma_mentions();
            assert(s[j].spec_mentions()[0] == VReg::Temp(t));
            assert(names_temp(s[j], t));
        }
    }
    let base: u16 = consts + locals;
    let mut slot: Vec<u16> = Vec::new();
    let mut t0: usize = 0;
    while t0 < temps
        invariant
            t0 <= temps,
            slot@.len() == t0,
            forall|t: int| 0 <= t < t0 ==> slot@[t] == u16::MAX,
        decreases temps - t0,
    {
        slot.push(u16::MAX);
        t0 += 1;
    }
    let mut free: Vec<u16> = Vec::new();
    let mut peak: u16 = 0;
    let mut allocated: Vec<Insn<Reg>> = Vec::new();
    let ghost mut assigned: Set<int> = Set::empty();
    // Linear scan. The destination is allocated before this instruction's
    // dying operands are released, so it never aliases one of them.
    let mut i: usize = 0;
    while i < n
        invariant
            n == s.len(),
            s == insns@,
            i <= n,
            well_formed(s, result, consts, locals),
            limit == u16::MAX - consts - locals,
            base == consts + locals,
            temps <= limit,
            def_v.len() == temps,
            last_v.len() == temps,
            slot@.len() == temps,
            last@.len() == temps,
            allocated@.len() == i,
            // every temporary named is counted, defined no later, and live
            forall|j: int, k: int|
                0 <= j < n && 0 <= k < s[j].spec_mentions().len() && (#[trigger] s[j].spec_mentions()[k]) is Temp
                    ==> ({
                    let t = s[j].spec_mentions()[k]->Temp_0;
                    t < temps && def_v[t as int] != usize::MAX && def_v[t as int] <= j && j <= last_v[t as int]
                }),
            forall|t: u32|
                t < temps && def_v[t as int] != usize::MAX ==> def_v[t as int] < n && defines(
                    s[def_v[t as int] as int],
                    t,
                ),
            forall|t: u32|
                t < temps && last_v[t as int] < n && def_v[t as int] != usize::MAX ==> names_temp(
                    s[last_v[t as int] as int],
                    t,
                ),
            forall|t: u32| t < temps && def_v[t as int] != usize::MAX ==> def_v[t as int] <= last_v[t as int],
            forall|t: u32| t < temps ==> last_v[t as int] <= n,
            // the slots handed out so far
            forall|j: int|
                0 <= j < i ==> #[trigger] maps_physically(s[j], allocated@[j], slot@, consts, locals),
            forall|t: u32|
                t < temps ==> (slot@[t as int] != u16::MAX <==> def_v[t as int] < i),
            forall|t: u32| t < temps && slot@[t as int] != u16::MAX ==> slot@[t as int] < peak,
            forall|t: u32|
                t < temps ==> last@[t as int] == (if def_v[t as int] < i && last_v[t as int] < i {
                    usize::MAX
                } else {
                    last_v[t as int]
                }),
            forall|a: int, b: int| 0 <= a < b < free@.len() ==> free@[a] != free@[b],
            forall|a: int| 0 <= a < free@.len() ==> free@[a] < peak,
            forall|a: int, t: u32|
                0 <= a < free@.len() && t < temps && def_v[t as int] < i && i <= last_v[t as int]
                    ==> free@[a] != slot@[t as int],
            forall|t1: u32, t2: u32|
                t1 < temps && t2 < temps && t1 != t2 && def_v[t1 as int] < i && def_v[t2 as int] < i
                    && def_v[t1 as int] <= last_v[t2 as int] && def_v[t2 as int] <= last_v[t1 as int]
                    ==> slot@[t1 as int] != slot@[t2 as int],
            assigned.finite(),
            assigned.subset_of(set_int_range(0, temps as int)),
            forall|t: int| 0 <= t < temps ==> (assigned.contains(t) <==> slot@[t] != u16::MAX),
            peak <= assigned.len(),
        decreases n - i,
    {
        let insn = insns[i];
        proof {
            insn.lemma_mentions();
        }
        if let Some(VReg::Temp(t)) = insn.dst() {
            let t = t as usize;
            proof {
                assert(s[i as int].spec_mentions()[0] == VReg::Temp(t as u32));
            }
            if slot[t] == u16::MAX {
                let ghost slot_before = slot@;
                proof {
                    assert(def_v[t as int] == i) by {
                        assert(def_v[t as int] <= i);
                    }
                    lemma_int_range(0, temps as int);
                    assert(assigned.insert(t as int).subset_of(set_int_range(0, temps as int)));
                    lemma_len_subset(assigned.insert(t as int), set_int_range(0, temps as int));
                    assert(!assigned.contains(t as int));
                }
                let chosen = match free.pop() {
                    Some(s) => s,
                    None => {
                        let s = peak;
                        peak = peak + 1;
                        s
                    },
                };
                slot.set(t, chosen);
                proof {
                    assigned = assigned.insert(t as int);
                    assert forall|j: int|
                        0 <= j < i implies #[trigger] maps_physically(
                            s[j],
                            allocated@[j],
                            slot@,
                            consts,
                            locals,
                        ) by {
                        assert forall|k: int|
                            0 <= k < s[j].spec_mentions().len() && (#[trigger] s[j].spec_mentions()[k]) is Temp
                                implies slot_before[s[j].spec_mentions()[k]->Temp_0 as int]
                            == slot@[s[j].spec_mentions()[k]->Temp_0 as int] by {}
                        lemma_maps_physically_agree(s[j], allocated@[j], slot_before, slot@, consts, locals);
                    }
                }
            }
        }
        let ghost slot_now = slot@;
        proof {
            assert forall|k: int|
                0 <= k < s[i as int].spec_mentions().len() && (#[trigger] s[i as int].spec_mentions()[k]) is Temp
                    implies slot_now[s[i as int].spec_mentions()[k]->Temp_0 as int] != u16::MAX
                    && slot_now[s[i as int].spec_mentions()[k]->Temp_0 as int] < peak by {
                let t = s[i as int].spec_mentions()[k]->Temp_0;
                assert(def_v[t as int] <= i);
            }
        }
        let physical_of = |reg: VReg| -> (r: Reg)
            requires
                register_in_class(reg, consts, locals, temps as int),
                reg is Temp ==> reg->Temp_0 < slot@.len() && slot@[reg->Temp_0 as int] < peak,
                base + peak <= u16::MAX,
            ensures
                r == physical(reg, slot@, consts, locals),
        {
            match reg {
                VReg::Const(c) => Reg(c),
                VReg::Local(l) => Reg(consts + l),
                VReg::Temp(t) => Reg(base + slot[t as usize]),
            }
        };
        proof {
            lemma_int_range(0, temps as int);
            lemma_len_subset(assigned, set_int_range(0, temps as int));
            assert(base + peak <= u16::MAX);
            assert forall|r: VReg| #[trigger] s[i as int].spec_mentions().contains(r) implies physical_of.requires((r,)) by {
                let k = choose|k: int| 0 <= k < s[i as int].spec_mentions().len() && s[i as int].spec_mentions()[k] == r;
                assert(register_in_class(s[i as int].spec_mentions()[k], consts, locals, limit));
                assert(register_in_class(r, consts, locals, temps as int));
                if r is Temp {
                    assert(slot@[r->Temp_0 as int] < peak);
                }
            }
        }
        let mapped = insn.map(physical_of);
        allocated.push(mapped);

        let named = insn.mentions();
        let ghost last_start = last@;
        let mut k: usize = 0;
        while k < named.len()
            invariant
                n == s.len(),
                s == insns@,
                i < n,
                k <= named.len(),
                named@ == s[i as int].spec_mentions(),
                slot@ == slot_now,
                slot@.len() == temps,
                last@.len() == temps,
                last_start.len() == temps,
                def_v.len() == temps,
                last_v.len() == temps,
                forall|kk: int| 0 <= kk < named@.len() && (#[trigger] named@[kk]) is Temp ==> ({
                    let t = named@[kk]->Temp_0;
                    t < temps && def_v[t as int] <= i && i <= last_v[t as int] && slot@[t as int] != u16::MAX
                }),
                forall|t: u32| t < temps ==> last_v[t as int] < usize::MAX,
                forall|t: u32|
                    t < temps ==> last_start[t as int] == (if def_v[t as int] < i && last_v[t as int] < i {
                        usize::MAX
                    } else {
                        last_v[t as int]
                    }),
                forall|t: u32|
                    t < temps ==> last@[t as int] == (if (exists|kk: int|
                        0 <= kk < k && #[trigger] named@[kk] == VReg::Temp(t)) && last_v[t as int] == i {
                        usize::MAX
                    } else {
                        last_start[t as int]
                    }),
                forall|a: int, b: int| 0 <= a < b < free@.len() ==> free@[a] != free@[b],
                forall|a: int| 0 <= a < free@.len() ==> free@[a] < peak,
                forall|t: u32| t < temps && slot@[t as int] != u16::MAX ==> slot@[t as int] < peak,
                forall|a: int, t: u32|
                    0 <= a < free@.len() && t < temps && def_v[t as int] <= i && i <= last_v[t as int]
                        && last@[t as int] != usize::MAX ==> free@[a] != slot@[t as int],
                forall|t1: u32, t2: u32|
                    t1 < temps && t2 < temps && t1 != t2 && def_v[t1 as int] <= i && def_v[t2 as int] <= i
                        && def_v[t1 as int] <= last_v[t2 as int] && def_v[t2 as int] <= last_v[t1 as int]
                        ==> slot@[t1 as int] != slot@[t2 as int],
            decreases named.len() - k,
        {
            let ghost last_k = last@;
            let ghost free_k = free@;
            if let VReg::Temp(t) = named[k] {
                let tt = t as usize;
                if last[tt] == i && slot[tt] != u16::MAX {
                    free.push(slot[tt]);
                    // Released once even if the register appears twice here.
                    last.set(tt, usize::MAX);
                    proof {
                        assert forall|a: int, t2: u32|
                            0 <= a < free@.len() && t2 < temps && def_v[t2 as int] <= i && i <= last_v[t2 as int]
                                && last@[t2 as int] != usize::MAX implies free@[a] != slot@[t2 as int] by {
                            if a == free@.len() - 1 {
                                assert(t2 != t);
                            }
                        }
                        assert forall|a: int, b: int| 0 <= a < b < free@.len() implies free@[a] != free@[b] by {
                            if b == free@.len() - 1 {
                                assert(free_k[a] != slot@[t as int]);
                            }
                        }
                    }
                }
            }
            proof {
                assert forall|t2: u32| t2 < temps implies last@[t2 as int] == (if (exists|kk: int|
                    0 <= kk < k + 1 && #[trigger] named@[kk] == VReg::Temp(t2)) && last_v[t2 as int] == i {
                    usize::MAX
                } else {
                    last_start[t2 as int]
                }) by {
                    if named@[k as int] == VReg::Temp(t2) {
                        assert(exists|kk: int| 0 <= kk < k + 1 && #[trigger] named@[kk] == VReg::Temp(t2));
                    } else if exists|kk: int| 0 <= kk < k + 1 && #[trigger] named@[kk] == VReg::Temp(t2) {
                        let kk = choose|kk: int| 0 <= kk < k + 1 && #[trigger] named@[kk] == VReg::Temp(t2);
                        assert(kk < k);
                    }
                }
            }
            k += 1;
        }
        proof {
            assert forall|t: u32|
                t < temps implies last@[t as int] == (if def_v[t as int] < i + 1 && last_v[t as int] < i + 1 {
                    usize::MAX
                } else {
                    last_v[t as int]
                }) by {
                if last_v[t as int] == i && def_v[t as int] <= i {
                    assert(def_v[t as int] != usize::MAX);
                    assert(names_temp(s[i as int], t));
                    let kk = choose|kk: int| 0 <= kk < named@.len() && named@[kk] == VReg::Temp(t);
                    assert(exists|kk: int| 0 <= kk < named@.len() && #[trigger] named@[kk] == VReg::Temp(t));
                }
                if exists|kk: int| 0 <= kk < named@.len() && #[trigger] named@[kk] == VReg::Temp(t) {
                    let kk = choose|kk: int| 0 <= kk < named@.len() && #[trigger] named@[kk] == VReg::Temp(t);
                    assert(i <= last_v[t as int]);
                }
            }
        }
        i += 1;
    }
    proof {
        lemma_int_range(0, temps as int);
        lemma_len_subset(assigned, set_int_range(0, temps as int));
        if let VReg::Temp(t) = result {
            let j = choose|j: int| 0 <= j < n && #[trigger] defines(s[j], t);
            s[j].lemma_mentions();
            assert(s[j].spec_mentions()[0] == VReg::Temp(t));
        }
    }
    let result_register = match result {
        VReg::Const(c) => Reg(c),
        VReg::Local(l) => Reg(consts + l),
        VReg::Temp(t) => Reg(base + slot[t as usize]),
    };
    let registers = base + peak;
    proof {
        let sl = slot@;
        // When a temporary is live, its interval holds the instruction.
        assert forall|t: u32, k: int| #[trigger] live_at(s, result, t, k) implies t < temps && def_v[t as int]
            <= k && (k < n ==> k <= last_v[t as int]) && (k >= n ==> result == VReg::Temp(t)) by {
            let j = choose|j: int| 0 <= j <= k && j < n && #[trigger] defines(s[j], t);
            s[j].lemma_mentions();
            assert(s[j].spec_mentions()[0] == VReg::Temp(t));
            if k < n && result != VReg::Temp(t) {
                let j2 = choose|j2: int| k <= j2 < n && #[trigger] names_temp(s[j2], t);
                let kk = choose|kk: int| 0 <= kk < s[j2].spec_mentions().len() && s[j2].spec_mentions()[kk] == VReg::Temp(t);
                assert(s[j2].spec_mentions()[kk] is Temp);
            }
        }
        assert forall|t1: u32, t2: u32, k: int|
            t1 != t2 && live_at(s, result, t1, k) && live_at(s, result, t2, k) implies sl[t1 as int]
                != sl[t2 as int] by {
            assert(live_at(s, result, t1, k));
            assert(live_at(s, result, t2, k));
        }
        assert forall|j: int, k: int|
            0 <= j < allocated@.len() && 0 <= k < allocated@[j].spec_mentions().len() implies (
            #[trigger] allocated@[j].spec_mentions()[k]).0 < registers by {
            assert(maps_physically(s[j], allocated@[j], sl, consts, locals));
            lemma_maps_physically_shape(s[j], allocated@[j], sl, consts, locals);
            assert(register_in_class(s[j].spec_mentions()[k], consts, locals, limit));
            if s[j].spec_mentions()[k] is Temp {
                assert(s[j].spec_mentions()[k]->Temp_0 < temps);
            }
        }
        assert forall|j: int|
            0 <= j < s.len() && !s[j].is_combine() && (#[trigger] allocated@[j]).spec_dst() is Some
                implies !allocated@[j].spec_sources().contains(allocated@[j].spec_dst()->0) by {
            let out = allocated@[j];
            assert(maps_physically(s[j], out, sl, consts, locals));
            lemma_maps_physically_shape(s[j], out, sl, consts, locals);
            s[j].lemma_mentions();
            let d = s[j].spec_dst()->0;
            assert(s[j].spec_mentions()[0] == d);
            assert(register_in_class(d, consts, locals, limit));
            if out.spec_sources().contains(out.spec_dst()->0) {
                let k = choose|k: int| 0 <= k < out.spec_sources().len() && out.spec_sources()[k] == out.spec_dst()->0;
                let v = s[j].spec_sources()[k];
                assert(s[j].spec_mentions()[k + 1] == v);
                assert(register_in_class(v, consts, locals, limit));
                assert(v != d);
                if v is Temp && d is Temp {
                    assert(s[j].spec_mentions()[k + 1] is Temp);
                    assert(s[j].spec_mentions()[0] is Temp);
                }
            }
        }
    }
    let out = (allocated, result_register, registers);
    proof {
        let sl = slot@;
        assert(allocation_by(insns@, result, consts, locals, sl, out.0@, out.1, out.2));
    }
    out
}
} // verus!
