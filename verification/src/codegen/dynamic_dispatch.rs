//! Dynamic dispatch code generation for trait objects: assembly that calls methods
//! through vtables and builds and takes apart fat pointers.
use vstd::prelude::*;
use crate::names::str_eq;
use crate::text::{append_str, chars_of, push_usize, string_of, dec};

verus! {

/// One method slot of a vtable.
#[derive(Debug)]
pub struct VtableEntry {
    pub method_name: String,
    /// Byte offset of the method pointer within the vtable.
    pub offset: usize,
}

/// The layout of the vtable for one trait implemented by one type.
#[derive(Debug)]
pub struct VtableLayout {
    pub trait_name: String,
    pub impl_type: String,
    pub entries: Vec<VtableEntry>,
}

/// Position of the first entry for `m`.
pub open spec fn first_entry(es: Seq<VtableEntry>, m: Seq<char>) -> Option<int> {
    if exists|i: int| 0 <= i < es.len() && es[i].method_name@ == m {
        Some(
            choose|i: int|
                0 <= i < es.len() && es[i].method_name@ == m && forall|j: int|
                    0 <= j < i ==> es[j].method_name@ != m,
        )
    } else {
        None
    }
}

/// The call sequence through the vtable slot at `offset`.
pub open spec fn method_call_text(
    trait_name: Seq<char>,
    method: Seq<char>,
    offset: nat,
    object_reg: Seq<char>,
    return_reg: Seq<char>,
) -> Seq<char> {
    "    ;; Call "@ + trait_name + "::"@ + method + " through vtable\n"@ + "    mov rax, ["@
        + object_reg + " + 8]           ;; Load vtable pointer from fat pointer\n"@
        + "    mov rbx, [rax + "@ + dec(offset) + "]        ;; Load method function pointer\n"@
        + "    call rbx                    ;; Call method\n"@ + "    mov "@ + return_reg
        + ", rax                ;; Store return value\n"@
}

pub struct DynamicDispatchCodegen;

impl DynamicDispatchCodegen {
    /// Code that loads the method pointer for `method_name` from the vtable of the fat
    /// pointer in `object_reg` and calls it; none when the trait has no such method.
    pub fn generate_trait_method_call(
        layout: &VtableLayout,
        method_name: &str,
        object_reg: &str,
        return_reg: &str,
    ) -> (r: Option<String>)
        ensures
            match r {
                Some(code) => exists|i: int|
                    0 <= i < layout.entries@.len() && layout.entries@[i].method_name@
                        == method_name@ && (forall|j: int|
                        0 <= j < i ==> layout.entries@[j].method_name@ != method_name@)
                        && code@ == method_call_text(
                        layout.trait_name@,
                        method_name@,
                        layout.entries@[i].offset as nat,
                        object_reg@,
                        return_reg@,
                    ),
                None => forall|i: int|
                    0 <= i < layout.entries@.len() ==> layout.entries@[i].method_name@
                        != method_name@,
            },
    {
        let mut i: usize = 0;
        while i < layout.entries.len()
            invariant
                i <= layout.entries@.len(),
                forall|j: int| 0 <= j < i ==> layout.entries@[j].method_name@ != method_name@,
            decreases layout.entries.len() - i,
        {
            if str_eq(layout.entries[i].method_name.as_str(), method_name) {
                let offset = layout.entries[i].offset;
                let mut code = chars_of("    ;; Call ");
                append_str(&mut code, layout.trait_name.as_str());
                append_str(&mut code, "::");
                append_str(&mut code, method_name);
                append_str(&mut code, " through vtable\n");
                append_str(&mut code, "    mov rax, [");
                append_str(&mut code, object_reg);
                append_str(&mut code, " + 8]           ;; Load vtable pointer from fat pointer\n");
                append_str(&mut code, "    mov rbx, [rax + ");
                push_usize(&mut code, offset);
                append_str(&mut code, "]        ;; Load method function pointer\n");
                append_str(&mut code, "    call rbx                    ;; Call method\n");
                append_str(&mut code, "    mov ");
                append_str(&mut code, return_reg);
                append_str(&mut code, ", rax                ;; Store return value\n");
                let s = string_of(code.as_slice());
                assert(s@ =~= method_call_text(
                    layout.trait_name@,
                    method_name@,
                    offset as nat,
                    object_reg@,
                    return_reg@,
                ));
                return Some(s);
            }
            i += 1;
        }
        None
    }

    /// Code that builds a fat pointer for `dyn Trait` from the data pointer in
    /// `data_ptr_reg` and the vtable `vtable_symbol`.
    pub fn generate_fat_pointer_construction(
        data_ptr_reg: &str,
        vtable_symbol: &str,
        dest_reg: &str,
    ) -> (r: String)
        ensures
            r@ == "    ;; Construct fat pointer for dyn Trait\n"@ + "    mov rcx, offset "@
                + vtable_symbol@ + "\n"@ + "    ;; Fat pointer layout: [data_ptr("@ + data_ptr_reg@
                + "), vtable_ptr(rcx)]\n"@,
    {
        let mut code = chars_of("    ;; Construct fat pointer for dyn Trait\n");
        append_str(&mut code, "    mov rcx, offset ");
        append_str(&mut code, vtable_symbol);
        append_str(&mut code, "\n");
        append_str(&mut code, "    ;; Fat pointer layout: [data_ptr(");
        append_str(&mut code, data_ptr_reg);
        append_str(&mut code, "), vtable_ptr(rcx)]\n");
        let s = string_of(code.as_slice());
        assert(s@ =~= "    ;; Construct fat pointer for dyn Trait\n"@ + "    mov rcx, offset "@
            + vtable_symbol@ + "\n"@ + "    ;; Fat pointer layout: [data_ptr("@ + data_ptr_reg@
            + "), vtable_ptr(rcx)]\n"@);
        s
    }

    /// Code that loads the data pointer of the fat pointer in `fat_ptr_reg`.
    pub fn extract_data_ptr(fat_ptr_reg: &str, dest_reg: &str) -> (r: String)
        ensures
            r@ == "    mov "@ + dest_reg@ + ", ["@ + fat_ptr_reg@
                + "]               ;; Extract data pointer from fat pointer\n"@,
    {
        let mut code = chars_of("    mov ");
        append_str(&mut code, dest_reg);
        append_str(&mut code, ", [");
        append_str(&mut code, fat_ptr_reg);
        append_str(&mut code, "]               ;; Extract data pointer from fat pointer\n");
        let s = string_of(code.as_slice());
        assert(s@ =~= "    mov "@ + dest_reg@ + ", ["@ + fat_ptr_reg@
            + "]               ;; Extract data pointer from fat pointer\n"@);
        s
    }

    /// Code that loads the vtable pointer of the fat pointer in `fat_ptr_reg`.
    pub fn extract_vtable_ptr(fat_ptr_reg: &str, dest_reg: &str) -> (r: String)
        ensures
            r@ == "    mov "@ + dest_reg@ + ", ["@ + fat_ptr_reg@
                + " + 8]           ;; Extract vtable pointer from fat pointer\n"@,
    {
        let mut code = chars_of("    mov ");
        append_str(&mut code, dest_reg);
        append_str(&mut code, ", [");
        append_str(&mut code, fat_ptr_reg);
        append_str(&mut code, " + 8]           ;; Extract vtable pointer from fat pointer\n");
        let s = string_of(code.as_slice());
        assert(s@ =~= "    mov "@ + dest_reg@ + ", ["@ + fat_ptr_reg@
            + " + 8]           ;; Extract vtable pointer from fat pointer\n"@);
        s
    }
}

} // verus!
