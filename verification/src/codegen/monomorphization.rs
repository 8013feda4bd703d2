//! Monomorphization: generic functions are instantiated once per list of concrete type
//! arguments, under a name mangled from those arguments.
use vstd::prelude::*;
use crate::ast::{
    copy_params, copy_types, same_params, same_type, same_types, GenericParam, Item, Type,
};
use crate::names::{copy_string, lemma_insert_facts, str_eq, views, NameMap, NameSet};
use crate::text::{
    append_chars, append_str, chars_of, join, join_exec, push_usize, replace, replace_exec,
    seqs_of, lemma_seqs_of_push, string_of, dec, cat_str,
};

verus! {

/// A generic function: its name and generic parameters.
#[derive(Debug)]
pub struct GenericFunction {
    pub name: String,
    pub generics: Vec<GenericParam>,
}

/// A request to instantiate a generic function with type arguments.
#[derive(Debug)]
pub struct Instantiation {
    pub name: String,
    pub type_args: Vec<Type>,
}

/// One instantiation of a generic function under its concrete name.
#[derive(Debug)]
pub struct MonomorphicInstance {
    pub original_name: String,
    pub concrete_name: String,
    pub type_args: Vec<Type>,
}

/// `a` and `b` record the same instantiation.
pub open spec fn same_instance(a: MonomorphicInstance, b: MonomorphicInstance) -> bool {
    &&& a.original_name@ == b.original_name@
    &&& a.concrete_name@ == b.concrete_name@
    &&& same_types(a.type_args@, b.type_args@)
}

impl MonomorphicInstance {
    /// A copy of this record.
    pub fn copy_of(&self) -> (r: MonomorphicInstance)
        ensures
            same_instance(*self, r),
    {
        MonomorphicInstance {
            original_name: copy_string(&self.original_name),
            concrete_name: copy_string(&self.concrete_name),
            type_args: copy_types(&self.type_args),
        }
    }
}

/// The name component a type contributes to a mangled name.
pub open spec fn mangle(ty: Type) -> Seq<char>
    decreases ty,
{
    match ty {
        Type::Named(name) => replace(name@, seq![' '], seq!['_']),
        Type::Generic { name, type_args } => name@ + seq!['_'] + join(
            mangle_list(type_args@),
            seq!['_'],
        ),
        Type::Reference { inner, mutable, .. } => "ref_"@ + (if mutable {
            "mut_"@
        } else {
            Seq::empty()
        }) + mangle(*inner),
        Type::Pointer { inner, mutable } => "ptr_"@ + (if mutable {
            "mut_"@
        } else {
            Seq::empty()
        }) + mangle(*inner),
        Type::Array { element, .. } => "array_"@ + mangle(*element),
        Type::Tuple(types) => "tuple_"@ + join(mangle_list(types@), seq!['_']),
        Type::Function { params, return_type } => "fn_"@ + join(mangle_list(params@), seq!['_'])
            + seq!['_'] + mangle(*return_type),
        Type::TypeVar(name) => "var_"@ + name@,
        Type::Never => "never"@,
        Type::TraitObject { .. } => "dyn"@,
        Type::ImplTrait { .. } => "impl_trait"@,
        Type::AssociatedType { name, .. } => "assoc_"@ + name@,
        Type::QualifiedPath { name, .. } => "qpath_"@ + name@,
        Type::Closure { .. } => "closure"@,
    }
}

/// The mangled component of each type, in order.
pub open spec fn mangle_list(tys: Seq<Type>) -> Seq<Seq<char>>
    decreases tys,
{
    if tys.len() == 0 {
        Seq::empty()
    } else {
        mangle_list(tys.drop_last()).push(mangle(tys.last()))
    }
}

/// The concrete name of `func` instantiated with `args`.
pub open spec fn concrete_name(func: Seq<char>, args: Seq<Type>) -> Seq<char> {
    func + seq!['_'] + join(mangle_list(args), seq!['_'])
}

/// The key under which an instantiation is recorded.
pub open spec fn signature(func: Seq<char>, concrete: Seq<char>) -> Seq<char> {
    func + "::"@ + concrete
}

/// The error for a function that was never registered as generic.
pub open spec fn unregistered_msg(func: Seq<char>) -> Seq<char> {
    "Generic function '"@ + func + "' not registered"@
}

/// The error for a call with the wrong number of type arguments.
pub open spec fn arity_msg(func: Seq<char>, expected: nat, got: nat) -> Seq<char> {
    "Generic function '"@ + func + "' expects "@ + dec(expected) + " type arguments, got "@
        + dec(got)
}

fn mangle_chars(ty: &Type) -> (r: Vec<char>)
    ensures
        r@ == mangle(*ty),
    decreases ty,
{
    match ty {
        Type::Named(name) => {
            let sp = vec![' '];
            let us = vec!['_'];
            let cs = chars_of(name.as_str());
            assert(sp@ =~= seq![' ']);
            assert(us@ =~= seq!['_']);
            replace_exec(cs.as_slice(), sp.as_slice(), us.as_slice())
        },
        Type::Generic { name, type_args } => {
            let mut r = chars_of(name.as_str());
            r.push('_');
            let parts = mangle_list_chars(type_args);
            let us = vec!['_'];
            assert(us@ =~= seq!['_']);
            let j = join_exec(&parts, us.as_slice());
            append_chars(&mut r, j.as_slice());
            r
        },
        Type::Reference { inner, mutable, .. } => {
            let mut r: Vec<char> = Vec::new();
            append_str(&mut r, "ref_");
            if *mutable {
                append_str(&mut r, "mut_");
            }
            let m = mangle_chars(inner);
            append_chars(&mut r, m.as_slice());
            r
        },
        Type::Pointer { inner, mutable } => {
            let mut r: Vec<char> = Vec::new();
            append_str(&mut r, "ptr_");
            if *mutable {
                append_str(&mut r, "mut_");
            }
            let m = mangle_chars(inner);
            append_chars(&mut r, m.as_slice());
            r
        },
        Type::Array { element, .. } => {
            let mut r: Vec<char> = Vec::new();
            append_str(&mut r, "array_");
            let m = mangle_chars(element);
            append_chars(&mut r, m.as_slice());
            r
        },
        Type::Tuple(types) => {
            let mut r: Vec<char> = Vec::new();
            append_str(&mut r, "tuple_");
            let parts = mangle_list_chars(types);
            let us = vec!['_'];
            assert(us@ =~= seq!['_']);
            let j = join_exec(&parts, us.as_slice());
            append_chars(&mut r, j.as_slice());
            r
        },
        Type::Function { params, return_type } => {
            let mut r: Vec<char> = Vec::new();
            append_str(&mut r, "fn_");
            let parts = mangle_list_chars(params);
            let us = vec!['_'];
            assert(us@ =~= seq!['_']);
            let j = join_exec(&parts, us.as_slice());
            append_chars(&mut r, j.as_slice());
            r.push('_');
            let m = mangle_chars(return_type);
            append_chars(&mut r, m.as_slice());
            r
        },
        Type::TypeVar(name) => {
            let mut r: Vec<char> = Vec::new();
            append_str(&mut r, "var_");
            append_str(&mut r, name.as_str());
            r
        },
        Type::Never => chars_of("never"),
        Type::TraitObject { .. } => chars_of("dyn"),
        Type::ImplTrait { .. } => chars_of("impl_trait"),
        Type::AssociatedType { name, .. } => {
            let mut r: Vec<char> = Vec::new();
            append_str(&mut r, "assoc_");
            append_str(&mut r, name.as_str());
            r
        },
        Type::QualifiedPath { name, .. } => {
            let mut r: Vec<char> = Vec::new();
            append_str(&mut r, "qpath_");
            append_str(&mut r, name.as_str());
            r
        },
        Type::Closure { .. } => chars_of("closure"),
    }
}

fn mangle_list_chars(tys: &Vec<Type>) -> (r: Vec<Vec<char>>)
    ensures
        seqs_of(r@) == mangle_list(tys@),
    decreases tys,
{
    let mut r: Vec<Vec<char>> = Vec::new();
    let mut i: usize = 0;
    while i < tys.len()
        invariant
            i <= tys.len(),
            seqs_of(r@) == mangle_list(tys@.take(i as int)),
        decreases tys.len() - i,
    {
        proof {
            assert(decreases_to!(tys => tys@[i as int]));
        }
        let m = mangle_chars(&tys[i]);
        proof {
            lemma_seqs_of_push(r@, m);
            assert(tys@.take(i + 1).drop_last() =~= tys@.take(i as int));
        }
        r.push(m);
        i += 1;
    }
    assert(tys@.take(tys.len() as int) =~= tys@);
    r
}

/// The registry of generic functions and of the instantiations made of them.
#[derive(Debug)]
pub struct MonomorphizationRegistry {
    /// Generic functions by name.
    pub generic_functions: NameMap<GenericFunction>,
    /// Instantiations by `signature(original, concrete)`.
    pub instances: NameMap<MonomorphicInstance>,
    /// The concrete names already generated.
    pub generated: NameSet,
}

/// The instantiations of `func` among `insts`, in order.
pub open spec fn instances_of(insts: Seq<MonomorphicInstance>, func: Seq<char>) -> Seq<MonomorphicInstance> {
    insts.filter(|i: MonomorphicInstance| i.original_name@ == func)
}

/// What `instantiate(func, args)` answers and leaves behind, from `pre` to `post`.
pub open spec fn instantiated(
    pre: MonomorphizationRegistry,
    post: MonomorphizationRegistry,
    func: Seq<char>,
    args: Vec<Type>,
    r: Result<String, String>,
) -> bool {
    let arity = pre.generic_functions.at(func).generics@.len();
    &&& !pre.generic_functions.has(func) ==> (r matches Err(e) && e@ == unregistered_msg(func))
    &&& pre.generic_functions.has(func) && args@.len() != arity ==> (r matches Err(e) && e@
        == arity_msg(func, arity, args@.len()))
    &&& pre.generic_functions.has(func) && args@.len() == arity ==> (r matches Ok(n) && n@
        == concrete_name(func, args@))
    &&& match r {
        Err(_) => post == pre,
        Ok(n) => if pre.generated.has(n@) {
            post == pre
        } else {
            let sig = signature(func, n@);
            &&& post.generic_functions == pre.generic_functions
            &&& post.generated.elems() == pre.generated.elems().push(n@)
            &&& post.instances.has(sig)
            &&& post.instances.at(sig).original_name@ == func
            &&& post.instances.at(sig).concrete_name@ == n@
            &&& post.instances.at(sig).type_args == args
            &&& forall|x: Seq<char>|
                x != sig ==> #[trigger] post.instances.lookup(x) == pre.instances.lookup(x)
        },
    }
}

impl MonomorphizationRegistry {
    pub open spec fn wf(&self) -> bool {
        &&& self.generic_functions.wf()
        &&& self.instances.wf()
        &&& self.generated.wf()
    }

    pub fn new() -> (r: Self)
        ensures
            r.wf(),
            r.generic_functions.keys().len() == 0,
            r.instances.keys().len() == 0,
            r.generated.elems().len() == 0,
    {
        MonomorphizationRegistry {
            generic_functions: NameMap::new(),
            instances: NameMap::new(),
            generated: NameSet::new(),
        }
    }

    /// Registers `name` as generic over `generics`; a function without generic parameters
    /// is not registered.
    pub fn register_generic(&mut self, name: String, generics: Vec<GenericParam>)
        requires
            old(self).wf(),
        ensures
            final(self).wf(),
            final(self).instances == old(self).instances,
            final(self).generated == old(self).generated,
            generics@.len() == 0 ==> final(self).generic_functions == old(self).generic_functions,
            generics@.len() > 0 ==> {
                &&& final(self).generic_functions.has(name@)
                &&& final(self).generic_functions.at(name@) == (GenericFunction { name, generics })
                &&& forall|x: Seq<char>|
                    x != name@ ==> #[trigger] final(self).generic_functions.lookup(x)
                        == old(self).generic_functions.lookup(x)
            },
    {
        if generics.len() > 0 {
            let key = copy_string(&name);
            let ghost ok = self.generic_functions.keys();
            let ghost ov = self.generic_functions.vals();
            let ghost v = GenericFunction { name, generics };
            self.generic_functions.insert(key, GenericFunction { name, generics });
            proof {
                lemma_insert_facts(
                    ok,
                    ov,
                    self.generic_functions.keys(),
                    self.generic_functions.vals(),
                    key@,
                    v,
                );
            }
        }
    }

    /// `func_name` with a `_` and the mangled type arguments joined by `_`.
    fn generate_concrete_name(&self, func_name: &str, type_args: &Vec<Type>) -> (r: String)
        ensures
            r@ == concrete_name(func_name@, type_args@),
    {
        let mut name = chars_of(func_name);
        name.push('_');
        let parts = mangle_list_chars(type_args);
        let us = vec!['_'];
        assert(us@ =~= seq!['_']);
        let j = join_exec(&parts, us.as_slice());
        append_chars(&mut name, j.as_slice());
        string_of(name.as_slice())
    }

    /// The name component `ty` contributes to a mangled name.
    pub fn type_to_mangled_name(&self, ty: &Type) -> (r: String)
        ensures
            r@ == mangle(*ty),
    {
        let cs = mangle_chars(ty);
        string_of(cs.as_slice())
    }

    /// Instantiates the generic function `func_name` with `type_args` and answers its
    /// concrete name; an instantiation already generated is answered without change.
    pub fn instantiate(&mut self, func_name: &str, type_args: Vec<Type>) -> (r: Result<String, String>)
        requires
            old(self).wf(),
        ensures
            final(self).wf(),
            instantiated(*old(self), *final(self), func_name@, type_args, r),
    {
        let arity = match self.generic_functions.get(func_name) {
            Some(g) => g.generics.len(),
            None => {
                return Err(cat_str("Generic function '", func_name, "' not registered"));
            },
        };
        if type_args.len() != arity {
            let mut msg = chars_of("Generic function '");
            append_str(&mut msg, func_name);
            append_str(&mut msg, "' expects ");
            push_usize(&mut msg, arity);
            append_str(&mut msg, " type arguments, got ");
            push_usize(&mut msg, type_args.len());
            return Err(string_of(msg.as_slice()));
        }
        let concrete = self.generate_concrete_name(func_name, &type_args);
        if self.generated.contains(concrete.as_str()) {
            return Ok(concrete);
        }
        let sig = cat_str(func_name, "::", concrete.as_str());
        let inst = MonomorphicInstance {
            original_name: func_name.to_string(),
            concrete_name: copy_string(&concrete),
            type_args,
        };
        let ghost ok = self.instances.keys();
        let ghost ov = self.instances.vals();
        let ghost v = inst;
        let ghost k = sig@;
        self.instances.insert(sig, inst);
        proof {
            lemma_insert_facts(ok, ov, self.instances.keys(), self.instances.vals(), k, v);
        }
        self.generated.insert(copy_string(&concrete));
        Ok(concrete)
    }

    /// Copies of the instantiations of `func_name`, in the order they were made.
    pub fn get_instantiations(&self, func_name: &str) -> (r: Vec<MonomorphicInstance>)
        requires
            self.wf(),
        ensures
            r@.len() == instances_of(self.instances.vals(), func_name@).len(),
            forall|i: int|
                0 <= i < r@.len() ==> same_instance(
                    #[trigger] instances_of(self.instances.vals(), func_name@)[i],
                    r@[i],
                ),
    {
        let ghost vals = self.instances.vals();
        let ghost p = |i: MonomorphicInstance| i.original_name@ == func_name@;
        let mut r: Vec<MonomorphicInstance> = Vec::new();
        let mut i: usize = 0;
        while i < self.instances.len()
            invariant
                self.wf(),
                vals == self.instances.vals(),
                vals.len() == self.instances.keys().len(),
                p == (|i: MonomorphicInstance| i.original_name@ == func_name@),
                i <= vals.len(),
                r@.len() == vals.take(i as int).filter(p).len(),
                forall|j: int|
                    0 <= j < r@.len() ==> same_instance(
                        #[trigger] vals.take(i as int).filter(p)[j],
                        r@[j],
                    ),
            decreases vals.len() - i,
        {
            let inst = self.instances.val_at(i);
            proof {
                assert(vals.take(i + 1) =~= vals.take(i as int).push(vals[i as int]));
                vals.take(i as int).lemma_filter_push(vals[i as int], p);
            }
            if str_eq(inst.original_name.as_str(), func_name) {
                r.push(inst.copy_of());
            }
            i += 1;
        }
        assert(vals.take(vals.len() as int) =~= vals);
        r
    }

    /// The names of the registered generic functions, in registration order.
    pub fn get_generic_functions(&self) -> (r: Vec<String>)
        requires
            self.wf(),
        ensures
            views(r@) == self.generic_functions.keys(),
    {
        let mut r: Vec<String> = Vec::new();
        let mut i: usize = 0;
        while i < self.generic_functions.len()
            invariant
                self.wf(),
                i <= self.generic_functions.keys().len(),
                views(r@) == self.generic_functions.keys().take(i as int),
            decreases self.generic_functions.keys().len() - i,
        {
            let k = copy_string(self.generic_functions.key_at(i));
            let ghost before = r@;
            r.push(k);
            assert(views(r@) =~= views(before).push(k@));
            assert(self.generic_functions.keys().take(i + 1) =~= self.generic_functions.keys().take(
                i as int,
            ).push(self.generic_functions.keys()[i as int]));
            i += 1;
        }
        assert(self.generic_functions.keys().take(i as int) =~= self.generic_functions.keys());
        r
    }

    /// Copies of all instantiations, in the order they were made.
    pub fn get_pending_instantiations(&self) -> (r: Vec<MonomorphicInstance>)
        requires
            self.wf(),
        ensures
            r@.len() == self.instances.vals().len(),
            forall|i: int|
                0 <= i < r@.len() ==> same_instance(#[trigger] self.instances.vals()[i], r@[i]),
    {
        let mut r: Vec<MonomorphicInstance> = Vec::new();
        let mut i: usize = 0;
        while i < self.instances.len()
            invariant
                self.wf(),
                i <= self.instances.vals().len(),
                r@.len() == i,
                forall|j: int|
                    0 <= j < i ==> same_instance(#[trigger] self.instances.vals()[j], r@[j]),
            decreases self.instances.vals().len() - i,
        {
            r.push(self.instances.val_at(i).copy_of());
            i += 1;
        }
        r
    }
}

/// The name an item registers its generic parameters under, with those parameters; `None`
/// for an item without generic parameters.
pub open spec fn item_generics(it: Item) -> Option<(Seq<char>, Vec<GenericParam>)> {
    match it {
        Item::Function { name, generics, .. } => nonempty_generics(name@, generics),
        Item::Struct { name, generics } => nonempty_generics(name@, generics),
        Item::Enum { name, generics } => nonempty_generics(name@, generics),
        Item::Trait { name, generics } => nonempty_generics(name@, generics),
        Item::Impl { generics, struct_name } => nonempty_generics(struct_name@, generics),
        Item::Use { .. } => None,
    }
}

/// `(name, generics)` when there is at least one generic parameter.
pub open spec fn nonempty_generics(name: Seq<char>, generics: Vec<GenericParam>) -> Option<(Seq<char>, Vec<GenericParam>)> {
    if generics@.len() > 0 {
        Some((name, generics))
    } else {
        None
    }
}

/// The generic parameters of the last item in `items` that registers some under `k`.
pub open spec fn last_generics(items: Seq<Item>, k: Seq<char>) -> Option<Vec<GenericParam>>
    decreases items.len(),
{
    if items.len() == 0 {
        None
    } else {
        let e = item_generics(items.last());
        if e is Some && e.unwrap().0 == k {
            Some(e.unwrap().1)
        } else {
            last_generics(items.drop_last(), k)
        }
    }
}

/// The generic parameters of each item that has some, by the item's name (for an impl, the
/// name of the type); a later item with the same name replaces an earlier one.
pub fn collect_generics(items: &[Item]) -> (r: NameMap<Vec<GenericParam>>)
    ensures
        r.wf(),
        forall|k: Seq<char>| #[trigger] r.has(k) <==> last_generics(items@, k) is Some,
        forall|k: Seq<char>|
            #[trigger] r.has(k) ==> same_params(last_generics(items@, k)->0@, r.at(k)@),
{
    let mut m: NameMap<Vec<GenericParam>> = NameMap::new();
    let mut i: usize = 0;
    while i < items.len()
        invariant
            i <= items@.len(),
            m.wf(),
            forall|k: Seq<char>| #[trigger] m.has(k) <==> last_generics(items@.take(i as int), k) is Some,
            forall|k: Seq<char>|
                #[trigger] m.has(k) ==> same_params(
                    last_generics(items@.take(i as int), k)->0@,
                    m.at(k)@,
                ),
        decreases items.len() - i,
    {
        let ghost t = items@.take(i + 1);
        assert(t.drop_last() =~= items@.take(i as int));
        assert(t.last() == items@[i as int]);
        let (name, generics) = match &items[i] {
            Item::Function { name, generics, .. } => (name, generics),
            Item::Struct { name, generics } => (name, generics),
            Item::Enum { name, generics } => (name, generics),
            Item::Trait { name, generics } => (name, generics),
            Item::Impl { generics, struct_name } => (struct_name, generics),
            Item::Use { .. } => {
                i += 1;
                continue;
            },
        };
        if generics.len() > 0 {
            let ghost ok = m.keys();
            let ghost ov = m.vals();
            let g = copy_params(generics);
            let ghost gv = g;
            let key = copy_string(name);
            m.insert(key, g);
            proof {
                lemma_insert_facts(ok, ov, m.keys(), m.vals(), key@, gv);
            }
        }
        i += 1;
    }
    assert(items@.take(items.len() as int) =~= items@);
    m
}

/// Types that are the same have the same mangled component.
pub proof fn lemma_same_type_mangle(a: Type, b: Type)
    requires
        same_type(a, b),
    ensures
        mangle(a) == mangle(b),
    decreases a,
{
    match (a, b) {
        (Type::Generic { type_args: x, .. }, Type::Generic { type_args: y, .. }) => {
            lemma_same_types_mangle(x@, y@);
        },
        (Type::Reference { inner: x, .. }, Type::Reference { inner: y, .. }) => {
            lemma_same_type_mangle(*x, *y);
        },
        (Type::Pointer { inner: x, .. }, Type::Pointer { inner: y, .. }) => {
            lemma_same_type_mangle(*x, *y);
        },
        (Type::Array { element: x, .. }, Type::Array { element: y, .. }) => {
            lemma_same_type_mangle(*x, *y);
        },
        (Type::Tuple(x), Type::Tuple(y)) => {
            lemma_same_types_mangle(x@, y@);
        },
        (
            Type::Function { params: p1, return_type: r1 },
            Type::Function { params: p2, return_type: r2 },
        ) => {
            lemma_same_types_mangle(p1@, p2@);
            lemma_same_type_mangle(*r1, *r2);
        },
        _ => {},
    }
}

/// Lists of the same types have the same mangled components.
pub proof fn lemma_same_types_mangle(a: Seq<Type>, b: Seq<Type>)
    requires
        same_types(a, b),
    ensures
        mangle_list(a) == mangle_list(b),
        a.len() == b.len(),
    decreases a,
{
    if a.len() > 0 {
        lemma_same_types_mangle(a.drop_last(), b.drop_last());
        lemma_same_type_mangle(a.last(), b.last());
    }
}

/// Instantiating a generic function again with the same type arguments answers the same
/// concrete name and leaves the registry as it was.
pub proof fn law_instantiate_again_changes_nothing(
    r0: MonomorphizationRegistry,
    r1: MonomorphizationRegistry,
    r2: MonomorphizationRegistry,
    func: Seq<char>,
    a1: Vec<Type>,
    a2: Vec<Type>,
    res1: Result<String, String>,
    res2: Result<String, String>,
)
    requires
        r0.wf(),
        instantiated(r0, r1, func, a1, res1),
        instantiated(r1, r2, func, a2, res2),
        same_types(a1@, a2@),
        res1 is Ok,
    ensures
        res2 is Ok,
        res2->Ok_0@ == res1->Ok_0@,
        r2 == r1,
{
    lemma_same_types_mangle(a1@, a2@);
    let n = res1->Ok_0;
    assert(r0.generic_functions.has(func));
    assert(r1.generic_functions == r0.generic_functions);
    assert(r1.generated.has(n@)) by {
        if !r0.generated.has(n@) {
            assert(r1.generated.elems().last() == n@);
            assert(r1.generated.elems()[r1.generated.elems().len() - 1] == n@);
        }
    }
}


/// A shared reference mangles as `ref_` and its target, a mutable one as `ref_mut_` and its
/// target, so `&T` and `&mut T` never share a mangled name, and instantiating a function
/// with one or the other never yields the same concrete name.
pub proof fn law_reference_mutability_mangles_apart(
    f: Seq<char>,
    inner: Box<Type>,
    l1: Option<String>,
    l2: Option<String>,
)
    ensures
        mangle(Type::Reference { lifetime: l1, mutable: false, inner }) == "ref_"@ + mangle(*inner),
        mangle(Type::Reference { lifetime: l2, mutable: true, inner }) == "ref_mut_"@ + mangle(*inner),
        mangle(Type::Reference { lifetime: l1, mutable: false, inner }) != mangle(
            Type::Reference { lifetime: l2, mutable: true, inner },
        ),
        concrete_name(f, seq![Type::Reference { lifetime: l1, mutable: false, inner }]) != concrete_name(
            f,
            seq![Type::Reference { lifetime: l2, mutable: true, inner }],
        ),
{
    reveal_strlit("ref_");
    reveal_strlit("mut_");
    reveal_strlit("ref_mut_");
    let a = Type::Reference { lifetime: l1, mutable: false, inner };
    let b = Type::Reference { lifetime: l2, mutable: true, inner };
    assert("ref_"@ + Seq::<char>::empty() + mangle(*inner) =~= "ref_"@ + mangle(*inner));
    assert("ref_"@ + "mut_"@ + mangle(*inner) =~= "ref_mut_"@ + mangle(*inner));
    assert(mangle(a).len() + 4 == mangle(b).len());
    let la = seq![a];
    let lb = seq![b];
    assert(mangle_list(la) =~= seq![mangle(a)]) by {
        assert(la.drop_last() =~= Seq::<Type>::empty());
        assert(la.last() == a);
        assert(mangle_list(Seq::<Type>::empty()) == Seq::<Seq<char>>::empty());
        assert(mangle_list(la) == mangle_list(la.drop_last()).push(mangle(la.last())));
    }
    assert(mangle_list(lb) =~= seq![mangle(b)]) by {
        assert(lb.drop_last() =~= Seq::<Type>::empty());
        assert(lb.last() == b);
        assert(mangle_list(Seq::<Type>::empty()) == Seq::<Seq<char>>::empty());
        assert(mangle_list(lb) == mangle_list(lb.drop_last()).push(mangle(lb.last())));
    }
    assert(join(seq![mangle(a)], seq!['_']) == mangle(a));
    assert(join(seq![mangle(b)], seq!['_']) == mangle(b));
    assert(concrete_name(f, la).len() + 4 == concrete_name(f, lb).len());
}


/// A raw pointer mangles as `ptr_` and its target, a mutable one as `ptr_mut_` and its
/// target, so `*const T` and `*mut T` never share a mangled name; an array mangles as
/// `array_` and its element type.
pub proof fn law_pointer_mutability_mangles_apart(inner: Box<Type>, size: usize)
    ensures
        mangle(Type::Pointer { inner, mutable: false }) == "ptr_"@ + mangle(*inner),
        mangle(Type::Pointer { inner, mutable: true }) == "ptr_mut_"@ + mangle(*inner),
        mangle(Type::Pointer { inner, mutable: false }) != mangle(Type::Pointer { inner, mutable: true }),
        mangle(Type::Array { element: inner, size }) == "array_"@ + mangle(*inner),
{
    reveal_strlit("ptr_");
    reveal_strlit("mut_");
    reveal_strlit("ptr_mut_");
    assert("ptr_"@ + Seq::<char>::empty() + mangle(*inner) =~= "ptr_"@ + mangle(*inner));
    assert("ptr_"@ + "mut_"@ + mangle(*inner) =~= "ptr_mut_"@ + mangle(*inner));
    assert(mangle(Type::Pointer { inner, mutable: false }).len() + 4 == mangle(
        Type::Pointer { inner, mutable: true },
    ).len());
}

} // verus!
