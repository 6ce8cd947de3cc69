//! The HLO abstract syntax tree: functions, instructions and their
//! parameters, with the accessors the analyses use.
use vstd::prelude::*;
use crate::ir::error::{ASTError, DeriveError, DeriveErrorView};
use crate::ir::strmap::{StrMap, smap};
use crate::ir::text::{has_char, owned, str_eq};

verus! {

/// A variable's position: its function, and the local indices of the
/// instructions that define or read it.
pub type VarPos = (usize, Vec<usize>);

/// An instruction's position: its function and its local index.
pub type InstPos = (usize, usize);

/// A function of the module.
#[derive(Debug, Clone, PartialEq, Eq, Hash)]
pub struct HLOFunction {
    pub name: String,
    pub params: Vec<Param>,
    pub return_types: Vec<Type>,
    pub body: Vec<Instruction>,
}

/// One instruction: `var_name = function(params...)`, with meta data.
#[derive(Debug, Clone, PartialEq, Eq, Hash)]
pub struct Instruction {
    pub var_name: String,
    pub function: FunctionCall,
    pub meta: Option<Vec<Meta>>,
}

/// The operation an instruction applies, with its operands.
#[derive(Debug, Clone, PartialEq, Eq, Hash)]
pub struct FunctionCall {
    pub return_types: Vec<RichType>,
    pub name: String,
    pub params: Option<Vec<RichParam>>,
}

/// A meta entry `key=value` of an instruction.
#[derive(Debug, Clone, PartialEq, Eq, Hash)]
pub struct Meta {
    pub key: String,
    pub str_value: Option<String>,
    pub dict_value: Option<Vec<Dict>>,
    pub num_list: Option<Vec<i32>>,
    pub slice_list: Option<Vec<Slice>>,
}

/// A `key=value` entry of a dictionary meta value.
#[derive(Debug, Clone, PartialEq, Eq, Hash)]
pub struct Dict {
    pub key: String,
    pub value: String,
}

/// A `[start:end]` slice of a meta value.
#[derive(Debug, Clone, PartialEq, Eq, Hash)]
pub struct Slice {
    pub start: i32,
    pub end: i32,
}

/// A parameter of a function.
#[derive(Debug, Clone, PartialEq, Eq, Hash)]
pub struct Param {
    pub name: String,
    pub param_type: Type,
}

/// The type of a function parameter or result.
#[derive(Debug, Clone, PartialEq, Eq, Hash)]
pub struct Type {
    pub data_type: String,
    pub dimensions: Option<Vec<i32>>,
}

/// An operand of an instruction.
#[derive(Debug, Clone, PartialEq, Eq, Hash)]
pub struct RichParam {
    pub param_type: RichType,
    pub name: String,
}

/// The type of an operand or of an instruction's result.
#[derive(Debug, Clone, PartialEq, Eq, Hash)]
pub struct RichType {
    pub data_type: String,
    pub dimensions: Option<Vec<i32>>,
    pub layout: Option<Vec<i32>>,
}

/// The index of the first meta entry at or after `i` whose key is `key`.
pub open spec fn find_meta_from(metas: Seq<Meta>, key: Seq<char>, i: int) -> Option<int>
    decreases metas.len() - i,
{
    if i < 0 || i >= metas.len() {
        None
    } else if metas[i].key@ == key {
        Some(i)
    } else {
        find_meta_from(metas, key, i + 1)
    }
}

/// The index of the first meta entry whose key is `key`.
pub open spec fn find_meta(metas: Seq<Meta>, key: Seq<char>) -> Option<int> {
    find_meta_from(metas, key, 0)
}

/// Whether some meta entry has the key `key`.
pub open spec fn has_meta_key(metas: Seq<Meta>, key: Seq<char>) -> bool {
    exists|j: int| 0 <= j < metas.len() && metas[j].key@ == key
}

/// `find_meta_from` finds an entry exactly when one exists at or after `i`,
/// and the one it finds comes first.
pub proof fn lemma_find_meta_from(metas: Seq<Meta>, key: Seq<char>, i: int)
    requires
        0 <= i,
    ensures
        match find_meta_from(metas, key, i) {
            Some(j) => i <= j < metas.len() && metas[j].key@ == key && forall|l: int|
                i <= l < j ==> metas[l].key@ != key,
            None => forall|l: int| i <= l < metas.len() ==> metas[l].key@ != key,
        },
    decreases metas.len() - i,
{
    if i < metas.len() && metas[i].key@ != key {
        lemma_find_meta_from(metas, key, i + 1);
    }
}

/// The operands of `inst`, or the error that asking for them gives.
pub open spec fn sv_params(inst: Instruction) -> Result<Seq<RichParam>, DeriveErrorView> {
    match inst.function.params {
        Some(p) => Ok(p@),
        None => Err(DeriveErrorView::OptionNone("inst.fn.params"@)),
    }
}

/// The number list of the first meta entry of `inst` with key `key`, or the
/// error that asking for it gives.
pub open spec fn sv_meta_vec(inst: Instruction, key: Seq<char>) -> Result<Seq<i32>, DeriveErrorView> {
    match inst.meta {
        None => Err(DeriveErrorView::OptionNone("inst.meta"@)),
        Some(metas) => match find_meta(metas@, key) {
            Some(j) => match metas@[j].num_list {
                Some(l) => Ok(l@),
                None => Err(DeriveErrorView::MetaValueNotFound("num_list"@)),
            },
            None => Err(DeriveErrorView::MetaKeyNotFound(key)),
        },
    }
}

/// The dimensions of the operand `p`, or the error that asking for them
/// gives.
pub open spec fn sv_dims(p: RichParam) -> Result<Seq<i32>, DeriveErrorView> {
    match p.param_type.dimensions {
        Some(d) => Ok(d@),
        None => Err(DeriveErrorView::OptionNone("rich_param.param_type.dimensions"@)),
    }
}

/// The error `OptionNone` with a message.
pub open spec fn option_none(msg: Seq<char>) -> spec_fn(DeriveError) -> bool {
    |e: DeriveError| e matches DeriveError::OptionNone(m) && m@ == msg
}

impl Instruction {
    /// The operands of the instruction.
    pub fn get_all_params(&self) -> (r: Result<&Vec<RichParam>, DeriveError>)
        ensures
            match self.function.params {
                Some(p) => r == Ok::<&Vec<RichParam>, DeriveError>(&p),
                None => r matches Err(e) && option_none("inst.fn.params"@)(e),
            },
            match r {
                Ok(p) => sv_params(*self) == Ok::<Seq<RichParam>, DeriveErrorView>(p@),
                Err(e) => sv_params(*self) == Err::<Seq<RichParam>, DeriveErrorView>(e@),
            },
    {
        match &self.function.params {
            Some(p) => Ok(p),
            None => Err(DeriveError::OptionNone(owned("inst.fn.params"))),
        }
    }

    /// The operand at index `i`.
    pub fn get_param(&self, i: usize) -> (r: Result<&RichParam, DeriveError>)
        requires
            self.function.params matches Some(p) ==> i < p.len(),
        ensures
            match self.function.params {
                Some(p) => r == Ok::<&RichParam, DeriveError>(&p[i as int]),
                None => r matches Err(e) && option_none("inst.fn.params"@)(e),
            },
    {
        match &self.function.params {
            Some(p) => Ok(&p[i]),
            None => Err(DeriveError::OptionNone(owned("inst.fn.params"))),
        }
    }

    /// Checks that the instruction has exactly `l` operands.
    pub fn assert_param_len(&self, l: usize)
        requires
            self.function.params matches Some(p) && p@.len() == l,
    {
    }

    /// Checks that some meta entry has the key `s`.
    pub fn assert_key_in_meta(&self, s: &str)
        requires
            self.meta matches Some(m) && has_meta_key(m@, s@),
    {
    }

    /// Whether some meta entry has the key `s`.
    pub fn key_in_meta(&self, s: &str) -> (r: bool)
        requires
            self.meta is Some,
        ensures
            r == has_meta_key(self.meta->0@, s@),
    {
        let metas = self.meta.as_ref().unwrap();
        let n = metas.len();
        let mut i: usize = 0;
        while i < n
            invariant
                n == metas@.len(),
                i <= n,
                self.meta is Some,
                self.meta->0@ == metas@,
                forall|j: int| 0 <= j < i ==> metas@[j].key@ != s@,
            decreases n - i,
        {
            if str_eq(metas[i].key.as_str(), s) {
                assert(metas@[i as int].key@ == s@);
                return true;
            }
            i = i + 1;
        }
        false
    }

    /// The first meta entry with key `key`, or the error the accessors give.
    fn find_meta_entry(&self, key: &str) -> (r: Result<&Meta, DeriveError>)
        ensures
            match self.meta {
                None => r matches Err(e) && option_none("inst.meta"@)(e),
                Some(metas) => match find_meta(metas@, key@) {
                    Some(j) => r == Ok::<&Meta, DeriveError>(&metas@[j]),
                    None => r matches Err(DeriveError::MetaKeyNotFound(k)) && k@ == key@,
                },
            },
    {
        if self.meta.is_none() {
            return Err(DeriveError::OptionNone(owned("inst.meta")));
        }
        let metas = self.meta.as_ref().unwrap();
        let n = metas.len();
        let mut i: usize = 0;
        while i < n
            invariant
                n == metas@.len(),
                i <= n,
                self.meta is Some,
                self.meta->0@ == metas@,
                find_meta(metas@, key@) == find_meta_from(metas@, key@, i as int),
            decreases n - i,
        {
            if str_eq(metas[i].key.as_str(), key) {
                return Ok(&metas[i]);
            }
            i = i + 1;
        }
        Err(DeriveError::MetaKeyNotFound(owned(key)))
    }

    /// The number list of the first meta entry with key `key`.
    pub fn get_meta_vec(&self, key: &str) -> (r: Result<&Vec<i32>, DeriveError>)
        ensures
            match self.meta {
                None => r matches Err(e) && option_none("inst.meta"@)(e),
                Some(metas) => match find_meta(metas@, key@) {
                    Some(j) => match metas@[j].num_list {
                        Some(l) => r == Ok::<&Vec<i32>, DeriveError>(&l),
                        None => r matches Err(DeriveError::MetaValueNotFound(k)) && k@
                            == "num_list"@,
                    },
                    None => r matches Err(DeriveError::MetaKeyNotFound(k)) && k@ == key@,
                },
            },
            match r {
                Ok(l) => sv_meta_vec(*self, key@) == Ok::<Seq<i32>, DeriveErrorView>(l@),
                Err(e) => sv_meta_vec(*self, key@) == Err::<Seq<i32>, DeriveErrorView>(e@),
            },
    {
        let m = self.find_meta_entry(key)?;
        match &m.num_list {
            Some(l) => Ok(l),
            None => Err(DeriveError::MetaValueNotFound(owned("num_list"))),
        }
    }

    /// The string value of the first meta entry with key `key`.
    pub fn get_meta_str(&self, key: &str) -> (r: Result<String, DeriveError>)
        ensures
            match self.meta {
                None => r matches Err(e) && option_none("inst.meta"@)(e),
                Some(metas) => match find_meta(metas@, key@) {
                    Some(j) => match metas@[j].str_value {
                        Some(v) => r matches Ok(s) && s@ == v@,
                        None => r matches Err(DeriveError::MetaValueNotFound(k)) && k@
                            == "str_value"@,
                    },
                    None => r matches Err(DeriveError::MetaKeyNotFound(k)) && k@ == key@,
                },
            },
    {
        let m = self.find_meta_entry(key)?;
        match &m.str_value {
            Some(v) => Ok(v.clone()),
            None => Err(DeriveError::MetaValueNotFound(owned("str_value"))),
        }
    }
}

impl RichParam {
    /// The dimensions of the operand.
    pub fn get_dims(&self) -> (r: Result<&Vec<i32>, DeriveError>)
        ensures
            match self.param_type.dimensions {
                Some(d) => r == Ok::<&Vec<i32>, DeriveError>(&d),
                None => r matches Err(e) && option_none("rich_param.param_type.dimensions"@)(e),
            },
            match r {
                Ok(d) => sv_dims(*self) == Ok::<Seq<i32>, DeriveErrorView>(d@),
                Err(e) => sv_dims(*self) == Err::<Seq<i32>, DeriveErrorView>(e@),
            },
    {
        match &self.param_type.dimensions {
            Some(d) => Ok(d),
            None => Err(DeriveError::OptionNone(owned("rich_param.param_type.dimensions"))),
        }
    }
}

impl Param {
    /// Prefixes the parameter's name with `%` unless it already holds one.
    pub fn augment_name(&mut self)
        ensures
            final(self).param_type == old(self).param_type,
            final(self).name@ == (if old(self).name@.contains('%') {
                old(self).name@
            } else {
                seq!['%'] + old(self).name@
            }),
    {
        if has_char(self.name.as_str(), '%') {
            return;
        }
        let prefixed = owned("%").concat(self.name.as_str());
        proof {
            reveal_strlit("%");
        }
        self.name = prefixed;
    }
}

} // verus!

verus! {

/// The whole module: its functions and the positional caches over them.
#[derive(Debug)]
pub struct HLORoot {
    pub functions: Vec<HLOFunction>,
    /// Function name to function index.
    pub func_id: StrMap<usize>,
    /// For the instruction at `[f][j]`, its index over the whole module.
    pub inst_id: Vec<Vec<usize>>,
    /// For the instruction at `[f][j]`, its index within its function.
    pub inst_local_id: Vec<Vec<usize>>,
    /// For the instruction at `[f][j]`, its position `(f, j)`.
    pub inst_pos: Vec<Vec<InstPos>>,
    /// Variable name to the function and the instructions that touch it.
    pub var_pos: StrMap<VarPos>,
}

/// `r` is the empty module: no function, and every cache empty.
pub open spec fn empty_root(r: HLORoot) -> bool {
    &&& r.functions@.len() == 0
    &&& r.func_id@ == Map::<Seq<char>, usize>::empty()
    &&& r.inst_id@.len() == 0
    &&& r.inst_local_id@.len() == 0
    &&& r.inst_pos@.len() == 0
    &&& r.var_pos@ == Map::<Seq<char>, VarPos>::empty()
}

/// The names of the functions paired with their indices.
pub open spec fn func_pairs(fs: Seq<HLOFunction>) -> Seq<(Seq<char>, usize)> {
    Seq::new(fs.len(), |i: int| (fs[i].name@, i as usize))
}

/// The number of instructions in the functions before `f`.
pub open spec fn insts_before(fs: Seq<HLOFunction>, f: int) -> int
    decreases f,
{
    if f <= 0 {
        0
    } else {
        insts_before(fs, f - 1) + fs[f - 1].body@.len()
    }
}

/// Whether some instruction is cached in the table `t`.
pub open spec fn any_cached<T>(t: Seq<Vec<T>>) -> bool {
    exists|f: int| 0 <= f < t.len() && t[f]@.len() > 0
}

/// The position caches of function `g` are right: each instruction has its
/// index over the module, its index within the function and its position.
pub open spec fn pos_rows_ok(fs: Seq<HLOFunction>, g: int, ids: Seq<usize>, locals: Seq<usize>, poss: Seq<InstPos>) -> bool {
    &&& ids.len() == fs[g].body@.len()
    &&& locals.len() == fs[g].body@.len()
    &&& poss.len() == fs[g].body@.len()
    &&& forall|j: int|
        0 <= j < fs[g].body@.len() ==> {
            &&& #[trigger] ids[j] == insts_before(fs, g) + j
            &&& locals[j] == j
            &&& poss[j] == (g as usize, j as usize)
        }
}

impl HLORoot {
    /// A module with the given functions and empty caches.
    pub fn new(functions: Vec<HLOFunction>) -> (r: HLORoot)
        ensures
            r.functions == functions,
            r.func_id@ == Map::<Seq<char>, usize>::empty(),
            r.inst_id@.len() == 0,
            r.inst_local_id@.len() == 0,
            r.inst_pos@.len() == 0,
            r.var_pos@ == Map::<Seq<char>, VarPos>::empty(),
    {
        HLORoot {
            functions,
            func_id: StrMap::new(),
            inst_id: Vec::new(),
            inst_local_id: Vec::new(),
            inst_pos: Vec::new(),
            var_pos: StrMap::new(),
        }
    }

    /// Caches, for each function name, the index of the last function with
    /// that name; refused when the cache is already built.
    pub fn cache_positional_func(&mut self) -> (r: Result<(), ASTError>)
        requires
            old(self).func_id@ == Map::<Seq<char>, usize>::empty() ==> old(self).functions@.len() > 0,
        ensures
            old(self).func_id@ != Map::<Seq<char>, usize>::empty() ==> (r == Err::<(), ASTError>(
                ASTError::CacheFuncTwice) && *final(self) == *old(self)),
            old(self).func_id@ == Map::<Seq<char>, usize>::empty() ==> (r is Ok && final(self).func_id@
                == smap(func_pairs(old(self).functions@))),
            final(self).functions == old(self).functions,
            final(self).inst_id == old(self).inst_id,
            final(self).inst_local_id == old(self).inst_local_id,
            final(self).inst_pos == old(self).inst_pos,
            final(self).var_pos == old(self).var_pos,
    {
        if !self.func_id.is_empty() {
            return Err(ASTError::CacheFuncTwice);
        }
        let n = self.functions.len();
        let mut m: StrMap<usize> = StrMap::new();
        let mut i: usize = 0;
        while i < n
            invariant
                n == self.functions@.len(),
                i <= n,
                m@ == smap(func_pairs(self.functions@).take(i as int)),
            decreases n - i,
        {
            m.insert(self.functions[i].name.clone(), i);
            assert(func_pairs(self.functions@).take(i + 1).drop_last() =~= func_pairs(
                self.functions@,
            ).take(i as int));
            i = i + 1;
        }
        assert(func_pairs(self.functions@).take(n as int) =~= func_pairs(self.functions@));
        self.func_id = m;
        Ok(())
    }

    /// Caches, for each instruction, its index over the module, its index
    /// within its function and its position; refused when the cache is
    /// already built.
    pub fn cache_positional_inst(&mut self) -> (r: Result<(), ASTError>)
        requires
            !any_cached(old(self).inst_id@) ==> 0 < insts_before(old(self).functions@, old(self).functions@.len() as int) <= i32::MAX,
        ensures
            any_cached(old(self).inst_id@) ==> (r == Err::<(), ASTError>(ASTError::CacheInstTwice) && *final(self) == *old(self)),
            !any_cached(old(self).inst_id@) ==> {
                let fs = old(self).functions@;
                &&& r is Ok
                &&& final(self).inst_id@.len() == fs.len()
                &&& final(self).inst_local_id@.len() == fs.len()
                &&& final(self).inst_pos@.len() == fs.len()
                &&& forall|f: int|
                    0 <= f < fs.len() ==> #[trigger] pos_rows_ok(
                        fs,
                        f,
                        final(self).inst_id@[f]@,
                        final(self).inst_local_id@[f]@,
                        final(self).inst_pos@[f]@,
                    )
            },
            final(self).functions == old(self).functions,
            final(self).func_id == old(self).func_id,
            final(self).var_pos == old(self).var_pos,
    {
        let nf = self.inst_id.len();
        let mut c: usize = 0;
        while c < nf
            invariant
                nf == self.inst_id@.len(),
                c <= nf,
                forall|f: int| 0 <= f < c ==> self.inst_id@[f]@.len() == 0,
            decreases nf - c,
        {
            if self.inst_id[c].len() > 0 {
                return Err(ASTError::CacheInstTwice);
            }
            c = c + 1;
        }
        let ghost fs = self.functions@;
        let n = self.functions.len();
        let mut ids: Vec<Vec<usize>> = Vec::new();
        let mut locals: Vec<Vec<usize>> = Vec::new();
        let mut poss: Vec<Vec<InstPos>> = Vec::new();
        let mut index: usize = 0;
        let mut f: usize = 0;
        while f < n
            invariant
                fs == self.functions@,
                n == fs.len(),
                f <= n,
                index == insts_before(fs, f as int),
                insts_before(fs, n as int) <= i32::MAX,
                ids@.len() == f,
                locals@.len() == f,
                poss@.len() == f,
                forall|g: int|
                    0 <= g < f ==> #[trigger] pos_rows_ok(fs, g, ids@[g]@, locals@[g]@, poss@[g]@),
            decreases n - f,
        {
            proof {
                lemma_insts_before_mono(fs, f as int + 1, n as int);
            }
            let m = self.functions[f].body.len();
            let mut id_row: Vec<usize> = Vec::new();
            let mut local_row: Vec<usize> = Vec::new();
            let mut pos_row: Vec<InstPos> = Vec::new();
            let mut j: usize = 0;
            while j < m
                invariant
                    f < n,
                    n == fs.len(),
                    m == fs[f as int].body@.len(),
                    index == insts_before(fs, f as int),
                    j <= m,
                    index + m <= i32::MAX,
                    id_row@.len() == j,
                    local_row@.len() == j,
                    pos_row@.len() == j,
                    forall|k: int| 0 <= k < j ==> {
                        &&& #[trigger] id_row@[k] == index + k
                        &&& local_row@[k] == k
                        &&& pos_row@[k] == (f, k as usize)
                    },
                decreases m - j,
            {
                id_row.push(index + j);
                local_row.push(j);
                pos_row.push((f, j));
                j = j + 1;
            }
            let ghost old_ids = ids@;
            let ghost old_locals = locals@;
            let ghost old_poss = poss@;
            ids.push(id_row);
            locals.push(local_row);
            poss.push(pos_row);
            proof {
                assert(id_row@.len() == fs[f as int].body@.len());
                assert forall|j: int| 0 <= j < fs[f as int].body@.len() implies {
                    &&& #[trigger] id_row@[j] == insts_before(fs, f as int) + j
                    &&& local_row@[j] == j
                    &&& pos_row@[j] == ((f as int) as usize, j as usize)
                } by {
                    assert(id_row@[j] == index + j);
                }
                assert(pos_rows_ok(fs, f as int, id_row@, local_row@, pos_row@));
                assert forall|g: int| 0 <= g < f + 1 implies #[trigger] pos_rows_ok(
                    fs,
                    g,
                    ids@[g]@,
                    locals@[g]@,
                    poss@[g]@,
                ) by {
                    if g < f {
                        assert(ids@[g] == old_ids[g]);
                        assert(locals@[g] == old_locals[g]);
                        assert(poss@[g] == old_poss[g]);
                    } else {
                        assert(ids@[g] == id_row);
                        assert(locals@[g] == local_row);
                        assert(poss@[g] == pos_row);
                    }
                }
            }
            index = index + m;
            f = f + 1;
        }
        self.inst_id = ids;
        self.inst_local_id = locals;
        self.inst_pos = poss;
        Ok(())
    }
}

/// `insts_before` grows with the number of functions counted.
pub proof fn lemma_insts_before_mono(fs: Seq<HLOFunction>, a: int, b: int)
    requires
        0 <= a <= b,
    ensures
        insts_before(fs, a) <= insts_before(fs, b),
    decreases b - a,
{
    if a < b {
        lemma_insts_before_mono(fs, a, b - 1);
    }
}

} // verus!

verus! {

/// Whether the instruction `inst` touches the variable `name`: defines it,
/// or reads it as an operand whose name holds `%`.
pub open spec fn inst_touches(inst: Instruction, name: Seq<char>) -> bool {
    ||| inst.var_name@ == name
    ||| (inst.function.params matches Some(ps) && name.contains('%') && exists|k: int|
        0 <= k < ps@.len() && #[trigger] ps@[k].name@ == name)
}

/// Whether the instruction at `[f][j]` touches the variable `name`.
pub open spec fn touches(fs: Seq<HLOFunction>, name: Seq<char>, f: int, j: int) -> bool {
    &&& 0 <= f < fs.len()
    &&& 0 <= j < fs[f].body@.len()
    &&& inst_touches(fs[f].body@[j], name)
}

/// Every variable is touched from within one function only.
pub open spec fn vars_in_one_function(fs: Seq<HLOFunction>) -> bool {
    forall|name: Seq<char>, f1: int, j1: int, f2: int, j2: int|
        touches(fs, name, f1, j1) && touches(fs, name, f2, j2) ==> f1 == f2
}

/// The plain view of a variable position.
pub open spec fn vp_view(e: VarPos) -> (int, Seq<usize>) {
    (e.0 as int, e.1@)
}

/// The position map `m` records exactly the touches that `done` holds: a
/// variable is in the map when `done` holds a touch of it, and its entry
/// names the function and lists, increasing, the instructions of those
/// touches.
pub open spec fn map_reflects(m: Map<Seq<char>, VarPos>, done: spec_fn(Seq<char>, int, int) -> bool) -> bool {
    &&& forall|name: Seq<char>|
        #[trigger] m.contains_key(name) <==> exists|f: int, j: int| #[trigger] done(name, f, j)
    &&& forall|name: Seq<char>|
        #[trigger] m.contains_key(name) ==> {
            let e = vp_view(m[name]);
            &&& e.1.len() > 0
            &&& forall|a: int, b: int| 0 <= a < b < e.1.len() ==> e.1[a] < e.1[b]
            &&& forall|k: int| 0 <= k < e.1.len() ==> done(name, e.0, #[trigger] e.1[k] as int)
            &&& forall|j: int| #[trigger] done(name, e.0, j) ==> e.1.contains(j as usize)
        }
}

/// The touches at positions before `(i, jj)`, plus those of `names` at
/// `(i, jj)` itself.
pub open spec fn done_upto(fs: Seq<HLOFunction>, i: int, jj: int, names: Set<Seq<char>>) -> spec_fn(Seq<char>, int, int) -> bool {
    |name: Seq<char>, f: int, j: int|
        touches(fs, name, f, j) && (f < i || (f == i && j < jj) || (f == i && j == jj && names.contains(name)))
}

/// The cached position of every variable: the function that touches it and
/// the increasing list of the instructions of that function that touch it.
pub open spec fn var_pos_ok(fs: Seq<HLOFunction>, m: Map<Seq<char>, VarPos>) -> bool {
    map_reflects(m, done_upto(fs, fs.len() as int, 0, Set::empty()))
}

/// A copy of a list of indices.
fn copy_indices(v: &Vec<usize>) -> (r: Vec<usize>)
    ensures
        r@ == v@,
{
    let mut r: Vec<usize> = Vec::new();
    let n = v.len();
    let mut i: usize = 0;
    while i < n
        invariant
            n == v@.len(),
            i <= n,
            r@ == v@.take(i as int),
        decreases n - i,
    {
        r.push(v[i]);
        i = i + 1;
        assert(r@ =~= v@.take(i as int));
    }
    assert(v@.take(n as int) =~= v@);
    r
}

/// Records the touch of `name` at `(f, j)` in the position map.
fn add_touch(
    m: &mut StrMap<VarPos>,
    name: &String,
    f: usize,
    j: usize,
    Ghost(fs): Ghost<Seq<HLOFunction>>,
    Ghost(done): Ghost<spec_fn(Seq<char>, int, int) -> bool>,
    Ghost(done2): Ghost<spec_fn(Seq<char>, int, int) -> bool>,
)
    requires
        forall|n: Seq<char>, g: int, k: int|
            #[trigger] done2(n, g, k) == (done(n, g, k) || (n == name@ && g == f && k == j)),
        vars_in_one_function(fs),
        touches(fs, name@, f as int, j as int),
        map_reflects(old(m)@, done),
        forall|n: Seq<char>, g: int, k: int| #[trigger] done(n, g, k) ==> touches(fs, n, g, k),
        forall|g: int, k: int| #[trigger] done(name@, g, k) ==> k <= j,
    ensures
        map_reflects(final(m)@, done2),
{
    let entry: Option<VarPos> = match m.get(name.as_str()) {
        Some(e) => Some((e.0, copy_indices(&e.1))),
        None => None,
    };
    match entry {
        None => {
            let mut l: Vec<usize> = Vec::new();
            l.push(j);
            m.insert(name.clone(), (f, l));
            proof {
                assert forall|n: Seq<char>| #[trigger] m@.contains_key(n) implies {
                    let e = vp_view(m@[n]);
                    &&& e.1.len() > 0
                    &&& forall|a: int, b: int| 0 <= a < b < e.1.len() ==> e.1[a] < e.1[b]
                    &&& forall|k: int| 0 <= k < e.1.len() ==> done2(n, e.0, #[trigger] e.1[k] as int)
                    &&& forall|k: int| #[trigger] done2(n, e.0, k) ==> e.1.contains(k as usize)
                } by {
                    if n == name@ {
                        assert(!old(m)@.contains_key(n));
                        assert forall|k: int| #[trigger] done2(n, f as int, k) implies vp_view(m@[n]).1.contains(k as usize) by {
                            if done(n, f as int, k) {
                                assert(exists|g: int, k: int| #[trigger] done(n, g, k));
                            }
                            assert(vp_view(m@[n]).1[0] == j);
                        }
                    }
                }
                assert forall|n: Seq<char>| #[trigger] m@.contains_key(n) <==> exists|g: int, k: int| #[trigger] done2(n, g, k) by {
                    if n == name@ {
                        assert(done2(n, f as int, j as int));
                    } else if m@.contains_key(n) {
                        assert(old(m)@.contains_key(n));
                        let (g, k) = choose|g: int, k: int| #[trigger] done(n, g, k);
                        assert(done2(n, g, k));
                    } else if exists|g: int, k: int| #[trigger] done2(n, g, k) {
                        let (g, k) = choose|g: int, k: int| #[trigger] done2(n, g, k);
                        assert(done(n, g, k));
                    }
                }
            }
        },
        Some((g, l0)) => {
            let ghost e0 = vp_view(old(m)@[name@]);
            proof {
                assert(done(name@, e0.0, e0.1[0] as int));
                assert(touches(fs, name@, e0.0, e0.1[0] as int));
                assert(e0.0 == f);
            }
            let mut l = l0;
            if !contains_index(&l, j) {
                let ghost before = l@;
                l.push(j);
                proof {
                    assert forall|a: int, b: int| 0 <= a < b < l@.len() implies l@[a] < l@[b] by {
                        if b == l@.len() - 1 {
                            assert(done(name@, e0.0, before[a] as int));
                            assert(before[a] <= j);
                            assert(before[a] != j);
                        }
                    }
                }
            }
            m.insert(name.clone(), (g, l));
            proof {
                assert forall|n: Seq<char>| #[trigger] m@.contains_key(n) implies {
                    let e = vp_view(m@[n]);
                    &&& e.1.len() > 0
                    &&& forall|a: int, b: int| 0 <= a < b < e.1.len() ==> e.1[a] < e.1[b]
                    &&& forall|k: int| 0 <= k < e.1.len() ==> done2(n, e.0, #[trigger] e.1[k] as int)
                    &&& forall|k: int| #[trigger] done2(n, e.0, k) ==> e.1.contains(k as usize)
                } by {
                    if n == name@ {
                        let e = vp_view(m@[n]);
                        assert forall|k: int| #[trigger] done2(n, e.0, k) implies e.1.contains(k as usize) by {
                            if done(n, e.0, k) {
                                assert(e0.1.contains(k as usize));
                                let t = choose|t: int| 0 <= t < e0.1.len() && e0.1[t] == k as usize;
                                assert(e.1[t] == k as usize);
                            } else {
                                if !contains_spec(e0.1, j) {
                                    assert(e.1[e.1.len() - 1] == j);
                                }
                            }
                        }
                    }
                }
                assert forall|n: Seq<char>| #[trigger] m@.contains_key(n) <==> exists|g: int, k: int| #[trigger] done2(n, g, k) by {
                    if m@.contains_key(n) {
                        assert(old(m)@.contains_key(n));
                        let (g, k) = choose|g: int, k: int| #[trigger] done(n, g, k);
                        assert(done2(n, g, k));
                    } else if exists|g: int, k: int| #[trigger] done2(n, g, k) {
                        let (g, k) = choose|g: int, k: int| #[trigger] done2(n, g, k);
                        assert(done(n, g, k));
                    }
                }
            }
        },
    }
}

/// Whether `s` holds `x`.
pub open spec fn contains_spec(s: Seq<usize>, x: usize) -> bool {
    s.contains(x)
}

/// Whether the list `v` holds `x`.
fn contains_index(v: &Vec<usize>, x: usize) -> (r: bool)
    ensures
        r == contains_spec(v@, x),
{
    let n = v.len();
    let mut i: usize = 0;
    while i < n
        invariant
            n == v@.len(),
            i <= n,
            forall|k: int| 0 <= k < i ==> v@[k] != x,
        decreases n - i,
    {
        if v[i] == x {
            return true;
        }
        i = i + 1;
    }
    false
}

} // verus!

verus! {

/// The names that the instruction `inst` touches among its result and its
/// first `k` operands.
pub open spec fn touched_upto(inst: Instruction, k: int) -> Set<Seq<char>> {
    Set::new(
        |n: Seq<char>|
            n == inst.var_name@ || (inst.function.params matches Some(ps) && n.contains('%')
                && exists|t: int| 0 <= t < k && t < ps@.len() && #[trigger] ps@[t].name@ == n),
    )
}

impl HLORoot {
    /// Caches the position of every variable: the function that touches it
    /// and the increasing list of its instructions that touch it; refused
    /// when the cache is already built.
    pub fn cache_var_position(&mut self) -> (r: Result<(), ASTError>)
        requires
            old(self).var_pos@ == Map::<Seq<char>, VarPos>::empty() ==> vars_in_one_function(old(self).functions@),
        ensures
            old(self).var_pos@ != Map::<Seq<char>, VarPos>::empty() ==> (r == Err::<(), ASTError>(
                ASTError::CacheVarPosTwice) && *final(self) == *old(self)),
            old(self).var_pos@ == Map::<Seq<char>, VarPos>::empty() ==> (r is Ok && var_pos_ok(
                old(self).functions@,
                final(self).var_pos@,
            )),
            final(self).functions == old(self).functions,
            final(self).func_id == old(self).func_id,
            final(self).inst_id == old(self).inst_id,
            final(self).inst_local_id == old(self).inst_local_id,
            final(self).inst_pos == old(self).inst_pos,
    {
        if !self.var_pos.is_empty() {
            return Err(ASTError::CacheVarPosTwice);
        }
        let ghost fs = self.functions@;
        let mut m: StrMap<VarPos> = StrMap::new();
        let nf = self.functions.len();
        proof {
            assert forall|name: Seq<char>|
                #[trigger] m@.contains_key(name) <==> exists|f: int, j: int|
                    #[trigger] done_upto(fs, 0, 0, Set::empty())(name, f, j) by {}
        }
        let mut i: usize = 0;
        while i < nf
            invariant
                fs == self.functions@,
                nf == fs.len(),
                i <= nf,
                vars_in_one_function(fs),
                map_reflects(m@, done_upto(fs, i as int, 0, Set::empty())),
            decreases nf - i,
        {
            let body = &self.functions[i].body;
            let nb = body.len();
            let mut jj: usize = 0;
            while jj < nb
                invariant
                    fs == self.functions@,
                    nf == fs.len(),
                    i < nf,
                    *body == fs[i as int].body,
                    nb == body@.len(),
                    jj <= nb,
                    vars_in_one_function(fs),
                    map_reflects(m@, done_upto(fs, i as int, jj as int, Set::empty())),
                decreases nb - jj,
            {
                let inst = &body[jj];
                proof {
                    lemma_done_step(fs, i as int, jj as int, Set::empty(), inst.var_name@);
                }
                add_touch(
                    &mut m,
                    &inst.var_name,
                    i,
                    jj,
                    Ghost(fs),
                    Ghost(done_upto(fs, i as int, jj as int, Set::empty())),
                    Ghost(done_upto(fs, i as int, jj as int, Set::empty().insert(inst.var_name@))),
                );
                proof {
                    assert(Set::<Seq<char>>::empty().insert(inst.var_name@) =~= touched_upto(*inst, 0));
                }
                if inst.function.params.is_some() {
                    let ps = inst.function.params.as_ref().unwrap();
                    let np = ps.len();
                    let mut k: usize = 0;
                    while k < np
                        invariant
                            fs == self.functions@,
                            i < nf,
                            nf == fs.len(),
                            jj < nb,
                            nb == fs[i as int].body@.len(),
                            *inst == fs[i as int].body@[jj as int],
                            inst.function.params == Some(*ps),
                            np == ps@.len(),
                            k <= np,
                            vars_in_one_function(fs),
                            map_reflects(m@, done_upto(fs, i as int, jj as int, touched_upto(*inst, k as int))),
                        decreases np - k,
                    {
                        let pname = &ps[k].name;
                        if has_char(pname.as_str(), '%') {
                            proof {
                                assert(inst_touches(*inst, pname@));
                                lemma_done_step(fs, i as int, jj as int, touched_upto(*inst, k as int), pname@);
                            }
                            add_touch(
                                &mut m,
                                pname,
                                i,
                                jj,
                                Ghost(fs),
                                Ghost(done_upto(fs, i as int, jj as int, touched_upto(*inst, k as int))),
                                Ghost(done_upto(fs, i as int, jj as int, touched_upto(*inst, k as int).insert(pname@))),
                            );
                            proof {
                                assert(touched_upto(*inst, k as int).insert(pname@) =~= touched_upto(*inst, k + 1));
                            }
                        } else {
                            proof {
                                assert(touched_upto(*inst, k as int) =~= touched_upto(*inst, k + 1));
                            }
                        }
                        k = k + 1;
                    }
                    proof {
                        lemma_touched_all(*inst, np as int);
                    }
                } else {
                    proof {
                        lemma_touched_all(*inst, 0);
                    }
                }
                proof {
                    lemma_done_next(fs, i as int, jj as int, *inst);
                }
                jj = jj + 1;
            }
            proof {
                assert(done_upto(fs, i as int, nb as int, Set::empty()) =~= done_upto(fs, i + 1, 0, Set::empty()));
            }
            i = i + 1;
        }
        self.var_pos = m;
        Ok(())
    }
}

/// Adding the touch of `name` at `(i, jj)` to the touches done so far gives
/// the touches done with `name` added at `(i, jj)`; and every earlier touch of
/// a name touched at `(i, jj)` is in function `i`, at or before `jj`.
proof fn lemma_done_step(fs: Seq<HLOFunction>, i: int, jj: int, names: Set<Seq<char>>, name: Seq<char>)
    requires
        vars_in_one_function(fs),
        touches(fs, name, i, jj),
    ensures
        forall|g: int, k: int| #[trigger] done_upto(fs, i, jj, names)(name, g, k) ==> k <= jj,
        forall|n: Seq<char>, g: int, k: int| #[trigger] done_upto(fs, i, jj, names)(n, g, k) ==> touches(fs, n, g, k),
        forall|n: Seq<char>, g: int, k: int|
            #[trigger] done_upto(fs, i, jj, names.insert(name))(n, g, k) == (done_upto(fs, i, jj, names)(n, g, k) || (n == name && g == i && k == jj)),
{
    assert forall|g: int, k: int| #[trigger] done_upto(fs, i, jj, names)(name, g, k) implies k <= jj by {
        assert(touches(fs, name, g, k));
    }
}

/// All operand names of `inst` with `%` are touched, so after its last
/// operand the touched names are those of `inst_touches`.
proof fn lemma_touched_all(inst: Instruction, np: int)
    requires
        inst.function.params matches Some(ps) ==> np == ps@.len(),
        inst.function.params is None ==> np == 0,
    ensures
        touched_upto(inst, np) =~= Set::new(|n: Seq<char>| inst_touches(inst, n)),
{
}

/// Once all names of the instruction at `(i, jj)` are done, the touches done
/// are those before `(i, jj + 1)`.
proof fn lemma_done_next(fs: Seq<HLOFunction>, i: int, jj: int, inst: Instruction)
    requires
        0 <= i < fs.len(),
        0 <= jj < fs[i].body@.len(),
        inst == fs[i].body@[jj],
    ensures
        done_upto(fs, i, jj, Set::new(|n: Seq<char>| inst_touches(inst, n))) =~= done_upto(fs, i, jj + 1, Set::empty()),
{
}

} // verus!

verus! {

/// The instruction caches `ids`, `locals` and `poss` are right for `fs`.
pub open spec fn inst_caches_ok(fs: Seq<HLOFunction>, ids: Seq<Vec<usize>>, locals: Seq<Vec<usize>>, poss: Seq<Vec<InstPos>>) -> bool {
    &&& ids.len() == fs.len()
    &&& locals.len() == fs.len()
    &&& poss.len() == fs.len()
    &&& forall|f: int| 0 <= f < fs.len() ==> #[trigger] pos_rows_ok(fs, f, ids[f]@, locals[f]@, poss[f]@)
}

impl HLORoot {
    /// All three positional caches of the module are built and right.
    pub open spec fn caches_ok(&self) -> bool {
        &&& self.func_id@ == smap(func_pairs(self.functions@))
        &&& inst_caches_ok(self.functions@, self.inst_id@, self.inst_local_id@, self.inst_pos@)
        &&& var_pos_ok(self.functions@, self.var_pos@)
    }

    /// Builds the function, instruction and variable caches in turn; the
    /// first one that is already built refuses, and the later ones are not
    /// built.
    pub fn cache_all_positional(&mut self) -> (r: Result<(), ASTError>)
        requires
            old(self).func_id@ == Map::<Seq<char>, usize>::empty() ==> old(self).functions@.len() > 0,
            old(self).func_id@ == Map::<Seq<char>, usize>::empty() && !any_cached(old(self).inst_id@) ==> 0
                < insts_before(old(self).functions@, old(self).functions@.len() as int) <= i32::MAX,
            old(self).func_id@ == Map::<Seq<char>, usize>::empty() && !any_cached(old(self).inst_id@)
                && old(self).var_pos@ == Map::<Seq<char>, VarPos>::empty() ==> vars_in_one_function(
                old(self).functions@,
            ),
        ensures
            final(self).functions == old(self).functions,
            old(self).func_id@ != Map::<Seq<char>, usize>::empty() ==> (r == Err::<(), ASTError>(
                ASTError::CacheFuncTwice) && *final(self) == *old(self)),
            old(self).func_id@ == Map::<Seq<char>, usize>::empty() ==> final(self).func_id@ == smap(
                func_pairs(old(self).functions@),
            ),
            old(self).func_id@ == Map::<Seq<char>, usize>::empty() && any_cached(old(self).inst_id@)
                ==> (r == Err::<(), ASTError>(ASTError::CacheInstTwice) && final(self).inst_id == old(self).inst_id
                && final(self).inst_local_id == old(self).inst_local_id && final(self).inst_pos == old(
                self,
            ).inst_pos && final(self).var_pos == old(self).var_pos),
            old(self).func_id@ == Map::<Seq<char>, usize>::empty() && !any_cached(old(self).inst_id@) ==> inst_caches_ok(
                old(self).functions@,
                final(self).inst_id@,
                final(self).inst_local_id@,
                final(self).inst_pos@,
            ),
            old(self).func_id@ == Map::<Seq<char>, usize>::empty() && !any_cached(old(self).inst_id@)
                && old(self).var_pos@ != Map::<Seq<char>, VarPos>::empty() ==> (r == Err::<(), ASTError>(
                ASTError::CacheVarPosTwice) && final(self).var_pos == old(self).var_pos),
            old(self).func_id@ == Map::<Seq<char>, usize>::empty() && !any_cached(old(self).inst_id@)
                && old(self).var_pos@ == Map::<Seq<char>, VarPos>::empty() ==> (r is Ok && final(self).caches_ok()),
            r is Ok <==> (old(self).func_id@ == Map::<Seq<char>, usize>::empty() && !any_cached(old(self).inst_id@)
                && old(self).var_pos@ == Map::<Seq<char>, VarPos>::empty()),
    {
        self.cache_positional_func()?;
        self.cache_positional_inst()?;
        self.cache_var_position()?;
        Ok(())
    }
}

} // verus!

verus! {

/// Caching is done once: the function cache that caching builds for a
/// module with functions is not empty, so caching the module again is
/// refused.
pub proof fn law_cache_once(fs: Seq<HLOFunction>)
    requires
        fs.len() > 0,
    ensures
        smap(func_pairs(fs)) != Map::<Seq<char>, usize>::empty(),
        smap(func_pairs(fs)).contains_key(fs[0].name@),
{
    crate::ir::strmap::lemma_smap_dom(func_pairs(fs), fs[0].name@);
    assert(func_pairs(fs)[0].0 == fs[0].name@);
    assert(!Map::<Seq<char>, usize>::empty().contains_key(fs[0].name@));
}

} // verus!

verus! {

/// The variable cache, as caching builds it when each variable is touched
/// within one function: every instruction that touches a variable is
/// listed under that variable, with its function; every key is a touched
/// variable; and each list is strictly increasing.
pub proof fn law_var_pos(fs: Seq<HLOFunction>, m: Map<Seq<char>, VarPos>)
    requires
        vars_in_one_function(fs),
        var_pos_ok(fs, m),
    ensures
        forall|name: Seq<char>, f: int, j: int|
            #[trigger] touches(fs, name, f, j) ==> m.contains_key(name) && m[name].0 == f && m[name].1@.contains(j as usize),
        forall|name: Seq<char>| #[trigger] m.contains_key(name) ==> exists|f: int, j: int| touches(fs, name, f, j),
        forall|name: Seq<char>, a: int, b: int|
            m.contains_key(name) && 0 <= a < b < m[name].1@.len() ==> #[trigger] m[name].1@[a] < #[trigger] m[name].1@[b],
{
    let done = done_upto(fs, fs.len() as int, 0, Set::empty());
    assert forall|name: Seq<char>, f: int, j: int| #[trigger] touches(fs, name, f, j) implies m.contains_key(name)
        && m[name].0 == f && m[name].1@.contains(j as usize) by {
        assert(done(name, f, j));
        assert(m.contains_key(name));
        let e = vp_view(m[name]);
        assert(e.1.len() > 0);
        assert(done(name, e.0, e.1[0] as int));
        assert(touches(fs, name, e.0, e.1[0] as int));
        assert(e.0 == f);
        assert(done(name, e.0, j));
    }
    assert forall|name: Seq<char>| #[trigger] m.contains_key(name) implies exists|f: int, j: int| touches(fs, name, f, j) by {
        let (f, j) = choose|f: int, j: int| #[trigger] done(name, f, j);
        assert(touches(fs, name, f, j));
    }
    assert forall|name: Seq<char>, a: int, b: int| m.contains_key(name) && 0 <= a < b < m[name].1@.len() implies #[trigger] m[name].1@[a]
        < #[trigger] m[name].1@[b] by {
        let e = vp_view(m[name]);
        assert(e.1[a] < e.1[b]);
    }
}

} // verus!

verus! {

/// A parameter name with the `%` that instructions use.
pub open spec fn with_percent(name: Seq<char>) -> Seq<char> {
    if name.contains('%') {
        name
    } else {
        seq!['%'] + name
    }
}

/// `b` is the function `a` with each parameter named as instructions name
/// it.
pub open spec fn fn_augmented(a: HLOFunction, b: HLOFunction) -> bool {
    &&& b.name == a.name
    &&& b.return_types == a.return_types
    &&& b.body == a.body
    &&& b.params@.len() == a.params@.len()
    &&& forall|k: int|
        0 <= k < a.params@.len() ==> (#[trigger] b.params@[k]).param_type == a.params@[k].param_type
            && b.params@[k].name@ == with_percent(a.params@[k].name@)
}

/// The parameters `ps`, each named as instructions name it.
fn augment_params(ps: Vec<Param>) -> (r: Vec<Param>)
    ensures
        r@.len() == ps@.len(),
        forall|k: int|
            0 <= k < ps@.len() ==> (#[trigger] r@[k]).param_type == ps@[k].param_type && r@[k].name@ == with_percent(
                ps@[k].name@,
            ),
{
    let ghost ps0 = ps@;
    let mut rest = ps;
    let mut r: Vec<Param> = Vec::new();
    while rest.len() > 0
        invariant
            r@.len() + rest@.len() == ps0.len(),
            rest@ == ps0.skip(r@.len() as int),
            forall|k: int|
                0 <= k < r@.len() ==> (#[trigger] r@[k]).param_type == ps0[k].param_type && r@[k].name@ == with_percent(
                    ps0[k].name@,
                ),
        decreases rest@.len(),
    {
        let ghost before = rest@;
        let mut p = rest.remove(0);
        assert(p == ps0[r@.len() as int]);
        p.augment_name();
        r.push(p);
        assert(rest@ =~= ps0.skip(r@.len() as int));
    }
    r
}

impl HLORoot {
    /// Names every function parameter as the instructions name it, with a
    /// `%` in front where it has none.
    pub fn augment_param_names(&mut self)
        ensures
            final(self).functions@.len() == old(self).functions@.len(),
            forall|f: int|
                0 <= f < old(self).functions@.len() ==> fn_augmented(
                    old(self).functions@[f],
                    #[trigger] final(self).functions@[f],
                ),
            final(self).func_id == old(self).func_id,
            final(self).inst_id == old(self).inst_id,
            final(self).inst_local_id == old(self).inst_local_id,
            final(self).inst_pos == old(self).inst_pos,
            final(self).var_pos == old(self).var_pos,
    {
        let mut rest: Vec<HLOFunction> = Vec::new();
        std::mem::swap(&mut rest, &mut self.functions);
        let ghost fs0 = rest@;
        let mut out: Vec<HLOFunction> = Vec::new();
        while rest.len() > 0
            invariant
                out@.len() + rest@.len() == fs0.len(),
                rest@ == fs0.skip(out@.len() as int),
                forall|f: int| 0 <= f < out@.len() ==> fn_augmented(fs0[f], #[trigger] out@[f]),
            decreases rest@.len(),
        {
            let mut f = rest.remove(0);
            assert(f == fs0[out@.len() as int]);
            let ghost f0 = f;
            let mut ps: Vec<Param> = Vec::new();
            std::mem::swap(&mut ps, &mut f.params);
            f.params = augment_params(ps);
            assert(fn_augmented(f0, f));
            out.push(f);
            assert(rest@ =~= fs0.skip(out@.len() as int));
        }
        self.functions = out;
    }
}

} // verus!

verus! {

/// Whether the position cache can be built for the functions `fs`: there
/// is a function, some instruction, no more instructions than an `i32`
/// counts, and every variable is touched within one function only.
pub open spec fn cacheable_spec(fs: Seq<HLOFunction>) -> bool {
    &&& fs.len() > 0
    &&& 0 < insts_before(fs, fs.len() as int) <= i32::MAX
    &&& vars_in_one_function(fs)
}

/// The touch of `name` at `(g, jj)` comes before `(f, j)`, or is at
/// `(f, j)` with `name` in `names`.
pub open spec fn touch_before(fs: Seq<HLOFunction>, f: int, j: int, names: Set<Seq<char>>, name: Seq<char>, g: int, jj: int) -> bool {
    &&& touches(fs, name, g, jj)
    &&& (g < f || (g == f && jj < j) || (g == f && jj == j && names.contains(name)))
}

/// The owners of the names met so far are right: each name touched before
/// has the function that touched it, and each owner touches its name.
pub open spec fn owners_ok(fs: Seq<HLOFunction>, f: int, j: int, names: Set<Seq<char>>, owner: Map<Seq<char>, usize>) -> bool {
    &&& forall|name: Seq<char>, g: int, jj: int|
        #[trigger] touch_before(fs, f, j, names, name, g, jj) ==> owner.contains_key(name) && owner[name] as int == g
    &&& forall|name: Seq<char>|
        #[trigger] owner.contains_key(name) ==> exists|jj: int| touches(fs, name, owner[name] as int, jj)
}

/// Records `f` as the owner of `name`; `false`, changing nothing, when
/// another function owns it.
fn claim(owner: &mut StrMap<usize>, name: &str, f: usize) -> (r: bool)
    ensures
        r == !(old(owner)@.contains_key(name@) && old(owner)@[name@] != f),
        r ==> final(owner)@ == old(owner)@.insert(name@, f),
        !r ==> final(owner)@ == old(owner)@,
{
    match owner.get(name) {
        Some(g) => {
            if *g != f {
                return false;
            }
        },
        None => {},
    }
    owner.insert(owned(name), f);
    true
}

/// Whether every variable of `fs` is touched within one function only.
fn vars_one_function(fs: &Vec<HLOFunction>) -> (r: bool)
    ensures
        r == vars_in_one_function(fs@),
{
    let ghost s = fs@;
    let mut owner: StrMap<usize> = StrMap::new();
    let nf = fs.len();
    let mut f: usize = 0;
    while f < nf
        invariant
            nf == s.len(),
            s == fs@,
            f <= nf,
            owners_ok(s, f as int, 0, Set::empty(), owner@),
        decreases nf - f,
    {
        let body = &fs[f].body;
        let nb = body.len();
        let mut j: usize = 0;
        while j < nb
            invariant
                nf == s.len(),
                s == fs@,
                f < nf,
                *body == s[f as int].body,
                nb == body@.len(),
                j <= nb,
                owners_ok(s, f as int, j as int, Set::empty(), owner@),
            decreases nb - j,
        {
            let inst = &body[j];
            let ghost mut names: Set<Seq<char>> = Set::empty();
            let ghost o0 = owner@;
            proof {
                assert forall|name: Seq<char>, g: int, jj: int| #[trigger] touch_before(s, f as int, j as int, Set::empty(), name, g, jj) implies owner@.contains_key(name) && owner@[name] as int == g by {
                }
            }
            if !claim(&mut owner, inst.var_name.as_str(), f) {
                proof {
                    let w = inst.var_name@;
                    assert(touches(s, w, f as int, j as int));
                    let g = o0[w] as int;
                    let jj = choose|jj: int| touches(s, w, g, jj);
                    assert(!vars_in_one_function(s));
                }
                return false;
            }
            proof {
                let w = inst.var_name@;
                names = names.insert(w);
                assert forall|name: Seq<char>, g: int, jj: int| #[trigger] touch_before(s, f as int, j as int, names, name, g, jj) implies owner@.contains_key(name) && owner@[name] as int == g by {
                    if !(name == w && g == f && jj == j) {
                        assert(touch_before(s, f as int, j as int, Set::empty(), name, g, jj));
                    }
                }
                assert forall|name: Seq<char>| #[trigger] owner@.contains_key(name) implies exists|jj: int| touches(s, name, owner@[name] as int, jj) by {
                    if name == w {
                        assert(touches(s, name, owner@[name] as int, j as int));
                    } else {
                        assert(o0.contains_key(name));
                        assert(owner@[name] == o0[name]);
                        let jj = choose|jj: int| touches(s, name, o0[name] as int, jj);
                        assert(touches(s, name, owner@[name] as int, jj));
                    }
                }
            }
            match &inst.function.params {
                Some(ps) => {
                    let np = ps.len();
                    let mut k: usize = 0;
                    while k < np
                        invariant
                            nf == s.len(),
                            s == fs@,
                            f < nf,
                            j < nb,
                            nb == s[f as int].body@.len(),
                            *inst == s[f as int].body@[j as int],
                            inst.function.params == Some(*ps),
                            np == ps@.len(),
                            k <= np,
                            names.contains(inst.var_name@),
                            forall|q: int| 0 <= q < k && ps@[q].name@.contains('%') ==> #[trigger] names.contains(ps@[q].name@),
                            forall|name: Seq<char>| #[trigger] names.contains(name) ==> touches(s, name, f as int, j as int),
                            owners_ok(s, f as int, j as int, names, owner@),
                        decreases np - k,
                    {
                        let pn = ps[k].name.as_str();
                        if has_char(pn, '%') {
                            let ghost o1 = owner@;
                            proof {
                                assert(inst_touches(*inst, pn@)) by {
                                    assert(ps@[k as int].name@ == pn@);
                                }
                            }
                            if !claim(&mut owner, pn, f) {
                                proof {
                                    let g = o1[pn@] as int;
                                    let jj = choose|jj: int| touches(s, pn@, g, jj);
                                    assert(touches(s, pn@, f as int, j as int));
                                    assert(!vars_in_one_function(s));
                                }
                                return false;
                            }
                            proof {
                                let w = pn@;
                                let n0 = names;
                                names = names.insert(w);
                                assert forall|name: Seq<char>, g: int, jj: int| #[trigger] touch_before(s, f as int, j as int, names, name, g, jj) implies owner@.contains_key(name) && owner@[name] as int == g by {
                                    if !(name == w && g == f && jj == j) {
                                        assert(touch_before(s, f as int, j as int, n0, name, g, jj));
                                    }
                                }
                                assert forall|name: Seq<char>| #[trigger] owner@.contains_key(name) implies exists|jj: int| touches(s, name, owner@[name] as int, jj) by {
                                    if name == w {
                                        assert(touches(s, name, owner@[name] as int, j as int));
                                    } else {
                                        assert(o1.contains_key(name));
                                        assert(owner@[name] == o1[name]);
                                        let jj = choose|jj: int| touches(s, name, o1[name] as int, jj);
                                        assert(touches(s, name, owner@[name] as int, jj));
                                    }
                                }
                            }
                        }
                        k = k + 1;
                    }
                    proof {
                        assert forall|name: Seq<char>, g: int, jj: int| #[trigger] touch_before(s, f as int, j as int + 1, Set::empty(), name, g, jj) implies owner@.contains_key(name) && owner@[name] as int == g by {
                            if g == f && jj == j {
                                if name != inst.var_name@ {
                                    let q = choose|q: int| 0 <= q < ps@.len() && #[trigger] ps@[q].name@ == name;
                                    assert(names.contains(ps@[q].name@));
                                }
                            }
                            assert(touch_before(s, f as int, j as int, names, name, g, jj));
                        }
                    }
                },
                None => {
                    proof {
                        assert forall|name: Seq<char>, g: int, jj: int| #[trigger] touch_before(s, f as int, j as int + 1, Set::empty(), name, g, jj) implies owner@.contains_key(name) && owner@[name] as int == g by {
                            assert(touch_before(s, f as int, j as int, names, name, g, jj));
                        }
                    }
                },
            }
            j = j + 1;
        }
        proof {
            assert forall|name: Seq<char>, g: int, jj: int| #[trigger] touch_before(s, f as int + 1, 0, Set::empty(), name, g, jj) implies owner@.contains_key(name) && owner@[name] as int == g by {
                assert(touch_before(s, f as int, nb as int, Set::empty(), name, g, jj));
            }
        }
        f = f + 1;
    }
    proof {
        assert forall|name: Seq<char>, f1: int, j1: int, f2: int, j2: int| touches(s, name, f1, j1) && touches(s, name, f2, j2) implies f1 == f2 by {
            assert(touch_before(s, nf as int, 0, Set::empty(), name, f1, j1));
            assert(touch_before(s, nf as int, 0, Set::empty(), name, f2, j2));
        }
    }
    true
}

impl HLORoot {
    /// Whether the position cache can be built: the module has a function,
    /// some instruction, no more instructions than an `i32` counts, and no
    /// variable that two functions touch.
    pub fn cacheable(&self) -> (r: bool)
        ensures
            r == cacheable_spec(self.functions@),
    {
        let ghost fs = self.functions@;
        let n = self.functions.len();
        if n == 0 {
            return false;
        }
        let mut total: usize = 0;
        let mut f: usize = 0;
        while f < n
            invariant
                n == fs.len(),
                fs == self.functions@,
                f <= n,
                total as int == insts_before(fs, f as int),
                total <= i32::MAX,
            decreases n - f,
        {
            let add = self.functions[f].body.len();
            if add > 0x7fff_ffffusize - total {
                proof {
                    lemma_insts_before_mono(fs, f as int + 1, n as int);
                }
                return false;
            }
            total = total + add;
            f = f + 1;
        }
        if total == 0 {
            return false;
        }
        vars_one_function(&self.functions)
    }
}

} // verus!
