use vstd::prelude::*;
use vstd::string::StringSliceAdditionalSpecFns;
use vstd::string::StrSliceExecFns;
use std::collections::HashMap;
use crate::dict::Vocab;

verus! {

/// A character's full phonetic code: initial, final, and the head and tail
/// of its auxiliary part.
#[derive(Clone, Copy, Debug, PartialEq, Eq, Structural)]
pub struct Code {
    pub conso: u8,
    pub vowel: u8,
    pub head: u8,
    pub tail: u8,
}

/// Why a spelling could not be read as a full code.
#[derive(Clone, Copy, Debug, PartialEq, Eq, Structural)]
pub enum SpellError {
    /// The spelling does not hold exactly five bytes.
    WrongLength,
}

/// The code spelled by `b`, when `b` has the five-symbol shape.
pub open spec fn code_of_spell(b: Seq<u8>) -> Option<Code> {
    if b.len() == 5 {
        Some(Code { conso: b[0], vowel: b[1], head: b[3], tail: b[4] })
    } else {
        None
    }
}

impl Code {
    /// Reads a five-symbol spelling: symbols 0, 1, 3 and 4 become the
    /// initial, final, head and tail; symbol 2 is a separator.
    pub fn parse(spell: &str) -> (r: Result<Code, SpellError>)
        ensures
            spell.spec_bytes().len() == 5 ==> r == Ok::<Code, SpellError>(code_of_spell(spell.spec_bytes())->0),
            spell.spec_bytes().len() != 5 ==> r == Err::<Code, SpellError>(SpellError::WrongLength),
    {
        let b = spell.as_bytes();
        if b.len() != 5 {
            return Err(SpellError::WrongLength);
        }
        Ok(Code { conso: b[0], vowel: b[1], head: b[3], tail: b[4] })
    }
}


/// The substitution table that folds ambiguous or legacy `(initial, final)`
/// pairs onto their canonical form. Every key keeps its initial, so the
/// table gives only the new final; a pair that is no key gives `None`.
/// The table is one directed step: a value may itself be a key.
pub open spec fn fly_table(c: u8, v: u8) -> Option<u8> {
    match (c, v) {
        (98, 122) => Some(119),  // bz -> bw
        (100, 122) => Some(119),  // dz -> dw
        (102, 122) => Some(119),  // fz -> fw
        (103, 122) => Some(119),  // gz -> gw
        (104, 122) => Some(119),  // hz -> hw
        (107, 122) => Some(119),  // kz -> kw
        (108, 122) => Some(119),  // lz -> lw
        (109, 122) => Some(119),  // mz -> mw
        (110, 122) => Some(119),  // nz -> nw
        (112, 122) => Some(119),  // pz -> pw
        (115, 122) => Some(119),  // sz -> sw
        (117, 122) => Some(119),  // uz -> uw
        (116, 122) => Some(119),  // tz -> tw
        (119, 122) => Some(119),  // wz -> ww
        (122, 122) => Some(119),  // zz -> zw
        (118, 122) => Some(119),  // vz -> vw
        (105, 112) => Some(121),  // ip -> iy
        (99, 112) => Some(121),  // cp -> cy
        (100, 112) => Some(121),  // dp -> dy
        (103, 112) => Some(121),  // gp -> gy
        (104, 112) => Some(121),  // hp -> hy
        (106, 112) => Some(121),  // jp -> jy
        (107, 112) => Some(121),  // kp -> ky
        (108, 112) => Some(121),  // lp -> ly
        (110, 112) => Some(121),  // np -> ny
        (113, 112) => Some(121),  // qp -> qy
        (114, 112) => Some(121),  // rp -> ry
        (117, 112) => Some(121),  // up -> uy
        (115, 112) => Some(121),  // sp -> sy
        (116, 112) => Some(121),  // tp -> ty
        (120, 112) => Some(121),  // xp -> xy
        (121, 112) => Some(121),  // yp -> yy
        (118, 112) => Some(121),  // vp -> vy
        (122, 112) => Some(121),  // zp -> zy
        (98, 120) => Some(112),  // bx -> bp
        (100, 120) => Some(112),  // dx -> dp
        (106, 120) => Some(112),  // jx -> jp
        (108, 120) => Some(112),  // lx -> lp
        (109, 120) => Some(112),  // mx -> mp
        (110, 120) => Some(112),  // nx -> np
        (112, 120) => Some(112),  // px -> pp
        (113, 120) => Some(112),  // qx -> qp
        (116, 120) => Some(112),  // tx -> tp
        (120, 120) => Some(112),  // xx -> xp
        (98, 108) => Some(100),  // bl -> bd
        (99, 108) => Some(100),  // cl -> cd
        (105, 108) => Some(100),  // il -> id
        (100, 108) => Some(100),  // dl -> dd
        (103, 108) => Some(100),  // gl -> gd
        (104, 108) => Some(100),  // hl -> hd
        (107, 108) => Some(100),  // kl -> kd
        (108, 108) => Some(100),  // ll -> ld
        (109, 108) => Some(100),  // ml -> md
        (110, 108) => Some(100),  // nl -> nd
        (112, 108) => Some(100),  // pl -> pd
        (115, 108) => Some(100),  // sl -> sd
        (117, 108) => Some(100),  // ul -> ud
        (116, 108) => Some(100),  // tl -> td
        (119, 108) => Some(100),  // wl -> wd
        (122, 108) => Some(100),  // zl -> zd
        (118, 108) => Some(100),  // vl -> vd
        (98, 121) => Some(107),  // by -> bk
        (100, 121) => Some(107),  // dy -> dk
        (106, 121) => Some(107),  // jy -> jk
        (108, 121) => Some(107),  // ly -> lk
        (109, 121) => Some(107),  // my -> mk
        (110, 121) => Some(107),  // ny -> nk
        (112, 121) => Some(107),  // py -> pk
        (113, 121) => Some(107),  // qy -> qk
        (116, 121) => Some(107),  // ty -> tk
        (120, 121) => Some(107),  // xy -> xk
        (121, 121) => Some(107),  // yy -> yk
        (105, 121) => Some(107),  // iy -> ik
        (103, 121) => Some(107),  // gy -> gk
        (104, 121) => Some(107),  // hy -> hk
        (107, 121) => Some(107),  // ky -> kk
        (117, 121) => Some(107),  // uy -> uk
        (118, 121) => Some(107),  // vy -> vk
        (100, 100) => Some(108),  // dd -> dl
        (106, 100) => Some(108),  // jd -> jl
        (108, 100) => Some(108),  // ld -> ll
        (110, 100) => Some(108),  // nd -> nl
        (113, 100) => Some(108),  // qd -> ql
        (120, 100) => Some(108),  // xd -> xl
        (105, 100) => Some(108),  // id -> il
        (103, 100) => Some(108),  // gd -> gl
        (104, 100) => Some(108),  // hd -> hl
        (107, 100) => Some(108),  // kd -> kl
        (117, 100) => Some(108),  // ud -> ul
        (118, 100) => Some(108),  // vd -> vl
        (105, 98) => Some(122),  // ib -> iz
        (99, 98) => Some(122),  // cb -> cz
        (100, 98) => Some(122),  // db -> dz
        (102, 98) => Some(122),  // fb -> fz
        (103, 98) => Some(122),  // gb -> gz
        (104, 98) => Some(122),  // hb -> hz
        (107, 98) => Some(122),  // kb -> kz
        (108, 98) => Some(122),  // lb -> lz
        (109, 98) => Some(122),  // mb -> mz
        (110, 98) => Some(122),  // nb -> nz
        (112, 98) => Some(122),  // pb -> pz
        (114, 98) => Some(122),  // rb -> rz
        (117, 98) => Some(122),  // ub -> uz
        (115, 98) => Some(122),  // sb -> sz
        (116, 98) => Some(122),  // tb -> tz
        (121, 98) => Some(122),  // yb -> yz
        (118, 98) => Some(122),  // vb -> vz
        (122, 98) => Some(122),  // zb -> zz
        (106, 119) => Some(120),  // jw -> jx
        (108, 119) => Some(120),  // lw -> lx
        (110, 119) => Some(120),  // nw -> nx
        (113, 119) => Some(120),  // qw -> qx
        (120, 119) => Some(120),  // xw -> xx
        (105, 119) => Some(120),  // iw -> ix
        (103, 119) => Some(120),  // gw -> gx
        (104, 119) => Some(120),  // hw -> hx
        (107, 119) => Some(120),  // kw -> kx
        (117, 119) => Some(120),  // uw -> ux
        (118, 119) => Some(120),  // vw -> vx
        (98, 107) => Some(99),  // bk -> bc
        (99, 107) => Some(99),  // ck -> cc
        (105, 107) => Some(99),  // ik -> ic
        (100, 107) => Some(99),  // dk -> dc
        (103, 107) => Some(99),  // gk -> gc
        (104, 107) => Some(99),  // hk -> hc
        (107, 107) => Some(99),  // kk -> kc
        (108, 107) => Some(99),  // lk -> lc
        (109, 107) => Some(99),  // mk -> mc
        (110, 107) => Some(99),  // nk -> nc
        (112, 107) => Some(99),  // pk -> pc
        (114, 107) => Some(99),  // rk -> rc
        (115, 107) => Some(99),  // sk -> sc
        (117, 107) => Some(99),  // uk -> uc
        (116, 107) => Some(99),  // tk -> tc
        (121, 107) => Some(99),  // yk -> yc
        (122, 107) => Some(99),  // zk -> zc
        (118, 107) => Some(99),  // vk -> vc
        (98, 110) => Some(98),  // bn -> bb
        (106, 110) => Some(98),  // jn -> jb
        (108, 110) => Some(98),  // ln -> lb
        (109, 110) => Some(98),  // mn -> mb
        (110, 110) => Some(98),  // nn -> nb
        (112, 110) => Some(98),  // pn -> pb
        (113, 110) => Some(98),  // qn -> qb
        (120, 110) => Some(98),  // xn -> xb
        (121, 110) => Some(98),  // yn -> yb
        (98, 99) => Some(110),  // bc -> bn
        (100, 99) => Some(110),  // dc -> dn
        (106, 99) => Some(110),  // jc -> jn
        (108, 99) => Some(110),  // lc -> ln
        (109, 99) => Some(110),  // mc -> mn
        (110, 99) => Some(110),  // nc -> nn
        (112, 99) => Some(110),  // pc -> pn
        (113, 99) => Some(110),  // qc -> qn
        (116, 99) => Some(110),  // tc -> tn
        (120, 99) => Some(110),  // xc -> xn
        _ => None,
    }
}

/// A code with its `(initial, final)` pair folded by the substitution table.
pub open spec fn normalized(code: Code) -> Code {
    match fly_table(code.conso, code.vowel) {
        Some(w) => Code { conso: code.conso, vowel: w, head: code.head, tail: code.tail },
        None => code,
    }
}

fn fly_lookup(c: u8, v: u8) -> (r: Option<u8>)
    ensures
        r == fly_table(c, v),
{
    match (c, v) {
            (98, 122) => Some(119),  // bz -> bw
            (100, 122) => Some(119),  // dz -> dw
            (102, 122) => Some(119),  // fz -> fw
            (103, 122) => Some(119),  // gz -> gw
            (104, 122) => Some(119),  // hz -> hw
            (107, 122) => Some(119),  // kz -> kw
            (108, 122) => Some(119),  // lz -> lw
            (109, 122) => Some(119),  // mz -> mw
            (110, 122) => Some(119),  // nz -> nw
            (112, 122) => Some(119),  // pz -> pw
            (115, 122) => Some(119),  // sz -> sw
            (117, 122) => Some(119),  // uz -> uw
            (116, 122) => Some(119),  // tz -> tw
            (119, 122) => Some(119),  // wz -> ww
            (122, 122) => Some(119),  // zz -> zw
            (118, 122) => Some(119),  // vz -> vw
            (105, 112) => Some(121),  // ip -> iy
            (99, 112) => Some(121),  // cp -> cy
            (100, 112) => Some(121),  // dp -> dy
            (103, 112) => Some(121),  // gp -> gy
            (104, 112) => Some(121),  // hp -> hy
            (106, 112) => Some(121),  // jp -> jy
            (107, 112) => Some(121),  // kp -> ky
            (108, 112) => Some(121),  // lp -> ly
            (110, 112) => Some(121),  // np -> ny
            (113, 112) => Some(121),  // qp -> qy
            (114, 112) => Some(121),  // rp -> ry
            (117, 112) => Some(121),  // up -> uy
            (115, 112) => Some(121),  // sp -> sy
            (116, 112) => Some(121),  // tp -> ty
            (120, 112) => Some(121),  // xp -> xy
            (121, 112) => Some(121),  // yp -> yy
            (118, 112) => Some(121),  // vp -> vy
            (122, 112) => Some(121),  // zp -> zy
            (98, 120) => Some(112),  // bx -> bp
            (100, 120) => Some(112),  // dx -> dp
            (106, 120) => Some(112),  // jx -> jp
            (108, 120) => Some(112),  // lx -> lp
            (109, 120) => Some(112),  // mx -> mp
            (110, 120) => Some(112),  // nx -> np
            (112, 120) => Some(112),  // px -> pp
            (113, 120) => Some(112),  // qx -> qp
            (116, 120) => Some(112),  // tx -> tp
            (120, 120) => Some(112),  // xx -> xp
            (98, 108) => Some(100),  // bl -> bd
            (99, 108) => Some(100),  // cl -> cd
            (105, 108) => Some(100),  // il -> id
            (100, 108) => Some(100),  // dl -> dd
            (103, 108) => Some(100),  // gl -> gd
            (104, 108) => Some(100),  // hl -> hd
            (107, 108) => Some(100),  // kl -> kd
            (108, 108) => Some(100),  // ll -> ld
            (109, 108) => Some(100),  // ml -> md
            (110, 108) => Some(100),  // nl -> nd
            (112, 108) => Some(100),  // pl -> pd
            (115, 108) => Some(100),  // sl -> sd
            (117, 108) => Some(100),  // ul -> ud
            (116, 108) => Some(100),  // tl -> td
            (119, 108) => Some(100),  // wl -> wd
            (122, 108) => Some(100),  // zl -> zd
            (118, 108) => Some(100),  // vl -> vd
            (98, 121) => Some(107),  // by -> bk
            (100, 121) => Some(107),  // dy -> dk
            (106, 121) => Some(107),  // jy -> jk
            (108, 121) => Some(107),  // ly -> lk
            (109, 121) => Some(107),  // my -> mk
            (110, 121) => Some(107),  // ny -> nk
            (112, 121) => Some(107),  // py -> pk
            (113, 121) => Some(107),  // qy -> qk
            (116, 121) => Some(107),  // ty -> tk
            (120, 121) => Some(107),  // xy -> xk
            (121, 121) => Some(107),  // yy -> yk
            (105, 121) => Some(107),  // iy -> ik
            (103, 121) => Some(107),  // gy -> gk
            (104, 121) => Some(107),  // hy -> hk
            (107, 121) => Some(107),  // ky -> kk
            (117, 121) => Some(107),  // uy -> uk
            (118, 121) => Some(107),  // vy -> vk
            (100, 100) => Some(108),  // dd -> dl
            (106, 100) => Some(108),  // jd -> jl
            (108, 100) => Some(108),  // ld -> ll
            (110, 100) => Some(108),  // nd -> nl
            (113, 100) => Some(108),  // qd -> ql
            (120, 100) => Some(108),  // xd -> xl
            (105, 100) => Some(108),  // id -> il
            (103, 100) => Some(108),  // gd -> gl
            (104, 100) => Some(108),  // hd -> hl
            (107, 100) => Some(108),  // kd -> kl
            (117, 100) => Some(108),  // ud -> ul
            (118, 100) => Some(108),  // vd -> vl
            (105, 98) => Some(122),  // ib -> iz
            (99, 98) => Some(122),  // cb -> cz
            (100, 98) => Some(122),  // db -> dz
            (102, 98) => Some(122),  // fb -> fz
            (103, 98) => Some(122),  // gb -> gz
            (104, 98) => Some(122),  // hb -> hz
            (107, 98) => Some(122),  // kb -> kz
            (108, 98) => Some(122),  // lb -> lz
            (109, 98) => Some(122),  // mb -> mz
            (110, 98) => Some(122),  // nb -> nz
            (112, 98) => Some(122),  // pb -> pz
            (114, 98) => Some(122),  // rb -> rz
            (117, 98) => Some(122),  // ub -> uz
            (115, 98) => Some(122),  // sb -> sz
            (116, 98) => Some(122),  // tb -> tz
            (121, 98) => Some(122),  // yb -> yz
            (118, 98) => Some(122),  // vb -> vz
            (122, 98) => Some(122),  // zb -> zz
            (106, 119) => Some(120),  // jw -> jx
            (108, 119) => Some(120),  // lw -> lx
            (110, 119) => Some(120),  // nw -> nx
            (113, 119) => Some(120),  // qw -> qx
            (120, 119) => Some(120),  // xw -> xx
            (105, 119) => Some(120),  // iw -> ix
            (103, 119) => Some(120),  // gw -> gx
            (104, 119) => Some(120),  // hw -> hx
            (107, 119) => Some(120),  // kw -> kx
            (117, 119) => Some(120),  // uw -> ux
            (118, 119) => Some(120),  // vw -> vx
            (98, 107) => Some(99),  // bk -> bc
            (99, 107) => Some(99),  // ck -> cc
            (105, 107) => Some(99),  // ik -> ic
            (100, 107) => Some(99),  // dk -> dc
            (103, 107) => Some(99),  // gk -> gc
            (104, 107) => Some(99),  // hk -> hc
            (107, 107) => Some(99),  // kk -> kc
            (108, 107) => Some(99),  // lk -> lc
            (109, 107) => Some(99),  // mk -> mc
            (110, 107) => Some(99),  // nk -> nc
            (112, 107) => Some(99),  // pk -> pc
            (114, 107) => Some(99),  // rk -> rc
            (115, 107) => Some(99),  // sk -> sc
            (117, 107) => Some(99),  // uk -> uc
            (116, 107) => Some(99),  // tk -> tc
            (121, 107) => Some(99),  // yk -> yc
            (122, 107) => Some(99),  // zk -> zc
            (118, 107) => Some(99),  // vk -> vc
            (98, 110) => Some(98),  // bn -> bb
            (106, 110) => Some(98),  // jn -> jb
            (108, 110) => Some(98),  // ln -> lb
            (109, 110) => Some(98),  // mn -> mb
            (110, 110) => Some(98),  // nn -> nb
            (112, 110) => Some(98),  // pn -> pb
            (113, 110) => Some(98),  // qn -> qb
            (120, 110) => Some(98),  // xn -> xb
            (121, 110) => Some(98),  // yn -> yb
            (98, 99) => Some(110),  // bc -> bn
            (100, 99) => Some(110),  // dc -> dn
            (106, 99) => Some(110),  // jc -> jn
            (108, 99) => Some(110),  // lc -> ln
            (109, 99) => Some(110),  // mc -> mn
            (110, 99) => Some(110),  // nc -> nn
            (112, 99) => Some(110),  // pc -> pn
            (113, 99) => Some(110),  // qc -> qn
            (116, 99) => Some(110),  // tc -> tn
            (120, 99) => Some(110),  // xc -> xn
        _ => None,
    }
}

impl Code {
    /// Folds the `(initial, final)` pair onto its canonical form, looking the
    /// original pair up once.
    pub fn fly(&mut self)
        ensures
            *final(self) == normalized(*old(self)),
    {
        match fly_lookup(self.conso, self.vowel) {
            Some(w) => {
                self.vowel = w;
            },
            None => {},
        }
    }
}


/// The key under which a character's code is filed.
pub open spec fn key(c: char) -> u32 {
    c as u32
}

/// The character code table: each character's full code, as read from the
/// character dictionary.
pub struct CharCodes {
    map: HashMap<u32, Code>,
}

impl View for CharCodes {
    type V = Map<u32, Code>;

    closed spec fn view(&self) -> Map<u32, Code> {
        self.map@
    }
}

/// The table that the character entries `s` build, read in order: each entry
/// with a non-empty text and a five-symbol spelling files its code under its
/// first character, and a later entry replaces an earlier one.
pub open spec fn table_of(s: Seq<Vocab>) -> Map<u32, Code>
    decreases s.len(),
{
    if s.len() == 0 {
        Map::empty()
    } else {
        let m = table_of(s.drop_last());
        let v = s.last();
        match code_of_spell(v.spell.bytes()) {
            Some(c) => if v.text@.len() > 0 {
                m.insert(key(v.text@[0]), c)
            } else {
                m
            },
            None => m,
        }
    }
}

/// Every character of `t` has a code in `m`.
pub open spec fn all_known(t: Seq<char>, m: Map<u32, Code>) -> bool {
    forall|i: int| 0 <= i < t.len() ==> m.contains_key(#[trigger] key(t[i]))
}

/// The normalized codes of the characters of `t`, one for each, or `None`
/// where a character has no code in `m`.
pub open spec fn infer_spec(t: Seq<char>, m: Map<u32, Code>) -> Option<Seq<Code>> {
    if all_known(t, m) {
        Some(Seq::new(t.len(), |i: int| normalized(m[key(t[i])])))
    } else {
        None
    }
}

/// The initials of the characters of `t`, one byte for each, or `None` where
/// a character has no code in `m`.
pub open spec fn abbr_spec(t: Seq<char>, m: Map<u32, Code>) -> Option<Seq<u8>> {
    if all_known(t, m) {
        Some(Seq::new(t.len(), |i: int| m[key(t[i])].conso))
    } else {
        None
    }
}

impl CharCodes {
    pub fn new() -> (r: CharCodes)
        ensures
            r@ == Map::<u32, Code>::empty(),
    {
        CharCodes { map: HashMap::new() }
    }

    pub fn insert(&mut self, c: char, code: Code)
        ensures
            final(self)@ == old(self)@.insert(key(c), code),
    {
        broadcast use vstd::std_specs::hash::group_hash_axioms;
        self.map.insert(c as u32, code);
    }

    pub fn get(&self, c: char) -> (r: Option<Code>)
        ensures
            r == (if self@.contains_key(key(c)) { Some(self@[key(c)]) } else { None::<Code> }),
    {
        broadcast use vstd::std_specs::hash::group_hash_axioms;
        match self.map.get(&(c as u32)) {
            Some(code) => Some(*code),
            None => None,
        }
    }

    /// Builds the table from the character entries, in order.
    pub fn from_entries(entries: &Vec<Vocab>) -> (r: CharCodes)
        ensures
            r@ == table_of(entries@),
    {
        let mut r = CharCodes::new();
        let mut i: usize = 0;
        while i < entries.len()
            invariant
                i <= entries@.len(),
                r@ == table_of(entries@.take(i as int)),
            decreases entries@.len() - i,
        {
            let v = &entries[i];
            proof {
                assert(entries@.take(i + 1).drop_last() == entries@.take(i as int));
            }
            match Code::parse(v.spell.0.as_str()) {
                Ok(code) => {
                    if v.text.as_str().unicode_len() > 0 {
                        let c = v.text.as_str().get_char(0);
                        r.insert(c, code);
                    }
                },
                Err(_) => {},
            }
            i += 1;
        }
        proof {
            assert(entries@.take(entries@.len() as int) == entries@);
        }
        r
    }

    /// The first character of `text` that has no code in the table.
    pub fn missing(&self, text: &str) -> (r: Option<char>)
        ensures
            r is None <==> all_known(text@, self@),
            r matches Some(c) ==> exists|i: int|
                0 <= i < text@.len() && text@[i] == c && !self@.contains_key(key(c)) && all_known(
                    text@.take(i),
                    self@,
                ),
    {
        let n = text.unicode_len();
        let mut i: usize = 0;
        while i < n
            invariant
                n == text@.len(),
                i <= n,
                all_known(text@.take(i as int), self@),
            decreases n - i,
        {
            let c = text.get_char(i);
            if self.get(c).is_none() {
                return Some(c);
            }
            proof {
                assert forall|j: int| 0 <= j < i + 1 implies self@.contains_key(
                    #[trigger] key(text@.take(i + 1)[j]),
                ) by {
                    if j < i {
                        assert(text@.take(i + 1)[j] == text@.take(i as int)[j]);
                    }
                }
            }
            i += 1;
        }
        proof {
            assert(text@.take(n as int) == text@);
        }
        None
    }
}

impl Code {
    /// The normalized codes of the characters of `text`, in order; `None`
    /// where a character has no code in the table.
    pub fn infer(text: &str, char_codes: &CharCodes) -> (r: Option<Vec<Code>>)
        ensures
            match r {
                Some(v) => infer_spec(text@, char_codes@) == Some(v@),
                None => infer_spec(text@, char_codes@) is None,
            },
    {
        let n = text.unicode_len();
        let mut codes: Vec<Code> = Vec::new();
        let mut i: usize = 0;
        while i < n
            invariant
                n == text@.len(),
                i <= n,
                codes@.len() == i,
                forall|j: int|
                    0 <= j < i ==> char_codes@.contains_key(#[trigger] key(text@[j])) && codes@[j]
                        == normalized(char_codes@[key(text@[j])]),
            decreases n - i,
        {
            let c = text.get_char(i);
            match char_codes.get(c) {
                Some(code) => {
                    let mut code = code;
                    code.fly();
                    codes.push(code);
                },
                None => {
                    return None;
                },
            }
            i += 1;
        }
        proof {
            assert(codes@ == Seq::new(n as nat, |j: int| normalized(char_codes@[key(text@[j])])));
        }
        Some(codes)
    }

    /// The initials of the characters of `text`, one byte for each; `None`
    /// where a character has no code in the table.
    pub fn infer_abbr(text: &str, char_codes: &CharCodes) -> (r: Option<Vec<u8>>)
        ensures
            match r {
                Some(v) => abbr_spec(text@, char_codes@) == Some(v@),
                None => abbr_spec(text@, char_codes@) is None,
            },
            r matches Some(v) ==> v@.len() == text@.len(),
            all_known(text@, char_codes@) ==> r is Some,
    {
        let n = text.unicode_len();
        let mut abbr: Vec<u8> = Vec::new();
        let mut i: usize = 0;
        while i < n
            invariant
                n == text@.len(),
                i <= n,
                abbr@.len() == i,
                forall|j: int|
                    0 <= j < i ==> char_codes@.contains_key(#[trigger] key(text@[j])) && abbr@[j]
                        == char_codes@[key(text@[j])].conso,
            decreases n - i,
        {
            let c = text.get_char(i);
            match char_codes.get(c) {
                Some(code) => {
                    abbr.push(code.conso);
                },
                None => {
                    return None;
                },
            }
            i += 1;
        }
        proof {
            assert(abbr@ == Seq::new(n as nat, |j: int| char_codes@[key(text@[j])].conso));
        }
        Some(abbr)
    }
}


/// Normalization leaves a code alone when its `(initial, final)` pair is not
/// a key of the substitution table, and never changes the initial, head or
/// tail.
pub proof fn lemma_normalize_outside_table(code: Code)
    ensures
        fly_table(code.conso, code.vowel) is None ==> normalized(code) == code,
        normalized(code).conso == code.conso,
        normalized(code).head == code.head,
        normalized(code).tail == code.tail,
{
}

} // verus!
