//! Cache-aware loop tiling: breaks long iterations into tiles that fit a cache level,
//! and emits the tiled loop as x86-64 assembly.
use vstd::prelude::*;
use crate::text::{
    cat_num, cat_str, dec, extend_strings, join, join_strings, lemma_empty_str, lit, texts,
};

verus! {

/// Cache level configuration.
#[derive(Debug, Clone, Copy, PartialEq, Eq, Structural)]
pub enum CacheLevel {
    L1,
    L2,
    L3,
}

pub open spec fn cache_bytes(c: CacheLevel) -> nat {
    match c {
        CacheLevel::L1 => 32 * 1024,
        CacheLevel::L2 => 256 * 1024,
        CacheLevel::L3 => 8 * 1024 * 1024,
    }
}

/// Elements of `element_size` bytes that fit in 80% of the cache.
pub open spec fn tile_elems(c: CacheLevel, element_size: nat) -> nat {
    (cache_bytes(c) * 80 / 100) / element_size
}

impl CacheLevel {
    /// Cache size in bytes.
    pub fn size_bytes(&self) -> (r: usize)
        ensures
            r == cache_bytes(*self),
    {
        match self {
            CacheLevel::L1 => 32 * 1024,
            CacheLevel::L2 => 256 * 1024,
            CacheLevel::L3 => 8 * 1024 * 1024,
        }
    }

    /// Optimal tile size for this cache level, leaving 20% headroom for other data.
    pub fn optimal_tile_size(&self, element_size: usize) -> (r: usize)
        requires
            element_size > 0,
        ensures
            r == tile_elems(*self, element_size as nat),
    {
        let usable = (self.size_bytes() * 80) / 100;
        usable / element_size
    }
}

/// A tile never exceeds the usable part of its cache: `tile * element_size` bytes fit in
/// 80% of the cache.
pub proof fn law_tile_fits_cache(c: CacheLevel, element_size: nat)
    requires
        element_size > 0,
    ensures
        tile_elems(c, element_size) * element_size <= cache_bytes(c) * 80 / 100,
        tile_elems(c, element_size) < cache_bytes(c),
{
    let u = cache_bytes(c) * 80 / 100;
    assert((u / element_size) * element_size <= u) by (nonlinear_arith)
        requires
            element_size > 0,
    ;
    assert(u / element_size <= u) by (nonlinear_arith)
        requires
            element_size > 0,
    ;
}

/// Loop tiling configuration.
#[derive(Debug)]
pub struct TilingConfig {
    pub cache_level: CacheLevel,
    pub element_size: usize,
    pub original_bounds: (usize, usize),
    pub tile_size: usize,
    pub array_count: usize,
}

impl TilingConfig {
    /// A configuration whose tile holds one element of each of `array_count` arrays per
    /// iteration.
    pub fn new(
        cache_level: CacheLevel,
        element_size: usize,
        start: usize,
        end: usize,
        array_count: usize,
    ) -> (r: Self)
        requires
            element_size * array_count > 0,
            element_size * array_count <= usize::MAX,
        ensures
            r.cache_level == cache_level,
            r.element_size == element_size,
            r.original_bounds == (start, end),
            r.array_count == array_count,
            r.tile_size == tile_elems(cache_level, (element_size * array_count) as nat),
    {
        let tile_size = cache_level.optimal_tile_size(element_size * array_count);
        TilingConfig {
            cache_level,
            element_size,
            original_bounds: (start, end),
            tile_size,
            array_count,
        }
    }

    /// The number of tiles the loop's iterations fall into, the last possibly partial.
    pub fn tile_count(&self) -> (r: usize)
        requires
            self.original_bounds.0 <= self.original_bounds.1,
            self.tile_size > 0,
            self.original_bounds.1 - self.original_bounds.0 + self.tile_size <= usize::MAX,
        ensures
            r == (self.original_bounds.1 - self.original_bounds.0 + self.tile_size - 1) / (self.tile_size as int),
    {
        let (start, end) = self.original_bounds;
        let total = end - start;
        (total + self.tile_size - 1) / self.tile_size
    }
}

/// Loop tiling code generator.
pub struct LoopTiler {
    pub config: TilingConfig,
    pub instructions: Vec<String>,
    /// Number of labels generated so far; the next label carries this number.
    pub label_counter: usize,
}

pub open spec fn label(prefix: Seq<char>, n: nat) -> Seq<char> {
    prefix + dec(n)
}

/// The lines of a tiled one-dimensional loop whose labels are numbered from `c`.
pub open spec fn tiled_loop_lines(start: nat, end: nat, tile: nat, c: nat) -> Seq<Seq<char>> {
    let outer = label(".tile_outer_"@, c);
    let outer_end = label(".tile_outer_end_"@, c + 1);
    let inner = label(".tile_inner_"@, c + 2);
    let inner_end = label(".tile_inner_end_"@, c + 3);
    seq![
        "    ; === Cache-Aware Loop Tiling ==="@,
        "    mov rax, "@ + dec(start) + "          ; outer loop (tiles)"@,
        "    mov rbx, "@ + dec(tile) + "          ; tile size"@,
        outer + ":"@,
        "    cmp rax, "@ + dec(end) + "          ; check if done"@,
        "    jge "@ + outer_end,
        "    mov rcx, rax"@,
        "    add rcx, rbx         ; rcx = tile end"@,
        "    cmp rcx, "@ + dec(end),
        "    cmovg rcx, "@ + dec(end) + "        ; min(tile_end, loop_end)"@,
        inner + ":"@,
        "    cmp rax, rcx         ; within tile?"@,
        "    jge "@ + inner_end,
        "    mov rdx, [rax]       ; load element"@,
        "    add rdx, 1           ; process"@,
        "    mov [rax], rdx       ; store element"@,
        "    add rax, 8           ; next element (8 bytes)"@,
        "    jmp "@ + inner,
        inner_end + ":"@,
        "    jmp "@ + outer,
        outer_end + ":"@,
        "    ; === Tiled Loop Complete ==="@,
    ]
}

/// Largest `r` with `r * r <= n`.
pub open spec fn is_isqrt(n: nat, r: nat) -> bool {
    r * r <= n && n < (r + 1) * (r + 1)
}

/// The lines of a tiled two-dimensional loop whose labels are numbered from `c`.
pub open spec fn tiled_2d_lines(
    rows: nat,
    cols: nat,
    tile_rows: nat,
    tile_cols: nat,
    c: nat,
) -> Seq<Seq<char>> {
    let orow = label(".tile_row_outer_"@, c);
    let orow_end = label(".tile_row_outer_end_"@, c + 1);
    let ocol = label(".tile_col_outer_"@, c + 2);
    let ocol_end = label(".tile_col_outer_end_"@, c + 3);
    let irow = label(".tile_row_inner_"@, c + 4);
    let irow_end = label(".tile_row_inner_end_"@, c + 5);
    let icol = label(".tile_col_inner_"@, c + 6);
    let icol_end = label(".tile_col_inner_end_"@, c + 7);
    seq![
        "    ; === 2D Cache-Aware Loop Tiling ==="@,
        "    xor rax, rax         ; row tile counter"@,
        "    mov r8, "@ + dec(tile_rows) + "           ; tile row size"@,
        orow + ":"@,
        "    cmp rax, "@ + dec(rows) + "          ; done with rows?"@,
        "    jge "@ + orow_end,
        "    xor rbx, rbx         ; col tile counter"@,
        "    mov r9, "@ + dec(tile_cols) + "           ; tile col size"@,
        ocol + ":"@,
        "    cmp rbx, "@ + dec(cols) + "          ; done with cols?"@,
        "    jge "@ + ocol_end,
        "    mov rcx, rax         ; row in tile"@,
        irow + ":"@,
        "    cmp rcx, rax"@,
        "    add rcx, r8          ; next row"@,
        "    cmp rcx, "@ + dec(rows),
        "    jge "@ + irow_end,
        "    mov rdx, rbx         ; col in tile"@,
        icol + ":"@,
        "    cmp rdx, rbx"@,
        "    add rdx, r9          ; next col"@,
        "    cmp rdx, "@ + dec(cols),
        "    jge "@ + icol_end,
        "    ; process matrix[rcx][rdx]"@,
        "    mov rsi, rcx"@,
        "    imul rsi, "@ + dec(cols) + "         ; row offset"@,
        "    add rsi, rdx"@,
        "    mov rdi, [rax + rsi * 8] ; load element"@,
        "    add rdi, 1               ; process"@,
        "    mov [rax + rsi * 8], rdi ; store element"@,
        "    jmp "@ + icol,
        icol_end + ":"@,
        "    jmp "@ + irow,
        irow_end + ":"@,
        "    add rbx, r9          ; next col tile"@,
        "    jmp "@ + ocol,
        ocol_end + ":"@,
        "    add rax, r8          ; next row tile"@,
        "    jmp "@ + orow,
        orow_end + ":"@,
        "    ; === 2D Tiled Loop Complete ==="@,
    ]
}

/// Integer square root: the largest `r` with `r * r <= n`.
pub fn isqrt(n: usize) -> (r: usize)
    ensures
        is_isqrt(n as nat, r as nat),
{
    let nn: u64 = n as u64;
    let mut lo: u64 = 0;
    let mut hi: u64 = if nn < 4294967295 {
        nn + 1
    } else {
        4294967296
    };
    assert(nn < hi * hi) by (nonlinear_arith)
        requires
            hi == nn + 1 || (hi == 4294967296 && nn <= 18446744073709551615),
    ;
    while hi - lo > 1
        invariant
            lo < hi,
            hi <= 4294967296,
            lo * lo <= nn,
            nn < hi * hi,
        decreases hi - lo,
    {
        let mid = lo + (hi - lo) / 2;
        assert(mid * mid < 4294967296 * 4294967296) by (nonlinear_arith)
            requires
                mid < 4294967296,
        ;
        if mid * mid <= nn {
            lo = mid;
        } else {
            hi = mid;
        }
    }
    assert(lo <= nn) by (nonlinear_arith)
        requires
            lo * lo <= nn,
    ;
    lo as usize
}

impl LoopTiler {
    pub open spec fn counter(&self) -> nat {
        self.label_counter as nat
    }

    pub fn new(config: TilingConfig) -> (r: Self)
        ensures
            r.config == config,
            r.instructions@.len() == 0,
            r.counter() == 0,
    {
        LoopTiler { config, instructions: Vec::new(), label_counter: 0 }
    }

    /// A fresh label: the prefix followed by the counter, which then advances.
    fn gen_label(&mut self, prefix: &str) -> (r: String)
        requires
            old(self).label_counter < usize::MAX,
        ensures
            r@ == label(prefix@, old(self).label_counter as nat),
            final(self).label_counter == old(self).label_counter + 1,
            final(self).config == old(self).config,
            final(self).instructions == old(self).instructions,
    {
        let l = cat_num(prefix, self.label_counter, "");
        proof {
            lemma_empty_str();
            assert(l@ =~= label(prefix@, self.label_counter as nat));
        }
        self.label_counter = self.label_counter + 1;
        l
    }

    /// Emits a tiled loop over the configured bounds; answers all lines emitted so far,
    /// joined by line feeds.
    pub fn generate_tiled_loop(&mut self) -> (r: String)
        requires
            old(self).counter() + 4 <= usize::MAX,
        ensures
            final(self).config == old(self).config,
            final(self).counter() == old(self).counter() + 4,
            texts(final(self).instructions@) == texts(old(self).instructions@) + tiled_loop_lines(
                old(self).config.original_bounds.0 as nat,
                old(self).config.original_bounds.1 as nat,
                old(self).config.tile_size as nat,
                old(self).counter(),
            ),
            r@ == join(texts(final(self).instructions@), "\n"@),
    {
        let ghost old_instrs = texts(self.instructions@);
        let start = self.config.original_bounds.0;
        let end = self.config.original_bounds.1;
        let tile_size = self.config.tile_size;
        let outer_label = self.gen_label(".tile_outer_");
        let outer_end = self.gen_label(".tile_outer_end_");
        let inner_label = self.gen_label(".tile_inner_");
        let inner_end = self.gen_label(".tile_inner_end_");
        let mut out: Vec<String> = Vec::new();
        out.push(lit("    ; === Cache-Aware Loop Tiling ==="));
        out.push(cat_num("    mov rax, ", start, "          ; outer loop (tiles)"));
        out.push(cat_num("    mov rbx, ", tile_size, "          ; tile size"));
        out.push(cat_str("", outer_label.as_str(), ":"));
        out.push(cat_num("    cmp rax, ", end, "          ; check if done"));
        out.push(cat_str("    jge ", outer_end.as_str(), ""));
        out.push(lit("    mov rcx, rax"));
        out.push(lit("    add rcx, rbx         ; rcx = tile end"));
        out.push(cat_num("    cmp rcx, ", end, ""));
        out.push(cat_num("    cmovg rcx, ", end, "        ; min(tile_end, loop_end)"));
        out.push(cat_str("", inner_label.as_str(), ":"));
        out.push(lit("    cmp rax, rcx         ; within tile?"));
        out.push(cat_str("    jge ", inner_end.as_str(), ""));
        out.push(lit("    mov rdx, [rax]       ; load element"));
        out.push(lit("    add rdx, 1           ; process"));
        out.push(lit("    mov [rax], rdx       ; store element"));
        out.push(lit("    add rax, 8           ; next element (8 bytes)"));
        out.push(cat_str("    jmp ", inner_label.as_str(), ""));
        out.push(cat_str("", inner_end.as_str(), ":"));
        out.push(cat_str("    jmp ", outer_label.as_str(), ""));
        out.push(cat_str("", outer_end.as_str(), ":"));
        out.push(lit("    ; === Tiled Loop Complete ==="));
        proof {
            lemma_empty_str();
            let c = old(self).counter();
            let want = tiled_loop_lines(start as nat, end as nat, tile_size as nat, c);
            assert(texts(out@) =~= want);
        }
        self.append_lines(out);
        join_strings(&self.instructions, "\n")
    }

    /// Appends lines to the emitted instructions.
    fn append_lines(&mut self, lines: Vec<String>)
        ensures
            final(self).config == old(self).config,
            final(self).label_counter == old(self).label_counter,
            texts(final(self).instructions@) == texts(old(self).instructions@) + texts(lines@),
    {
        extend_strings(&mut self.instructions, lines);
    }

    /// Emits a tiled loop over a `rows` by `cols` matrix; answers all lines emitted so far,
    /// joined by line feeds. Tiles are `isqrt(tile_size)` rows by `tile_size / rows` columns.
    pub fn generate_2d_tiled_loop(&mut self, rows: usize, cols: usize) -> (r: String)
        requires
            old(self).counter() + 8 <= usize::MAX,
            old(self).config.tile_size > 0,
        ensures
            final(self).config == old(self).config,
            final(self).counter() == old(self).counter() + 8,
            exists|tr: nat|
                #![trigger is_isqrt(old(self).config.tile_size as nat, tr)]
                is_isqrt(old(self).config.tile_size as nat, tr) && tr > 0 && texts(
                    final(self).instructions@,
                ) == texts(old(self).instructions@) + tiled_2d_lines(
                    rows as nat,
                    cols as nat,
                    tr,
                    old(self).config.tile_size as nat / tr,
                    old(self).counter(),
                ),
            r@ == join(texts(final(self).instructions@), "\n"@),
    {
        let tile_size = self.config.tile_size;
        let tile_rows = isqrt(tile_size);
        assert(tile_rows > 0) by (nonlinear_arith)
            requires
                is_isqrt(tile_size as nat, tile_rows as nat),
                tile_size > 0,
        ;
        let tile_cols = tile_size / tile_rows;
        let orow = self.gen_label(".tile_row_outer_");
        let orow_end = self.gen_label(".tile_row_outer_end_");
        let ocol = self.gen_label(".tile_col_outer_");
        let ocol_end = self.gen_label(".tile_col_outer_end_");
        let irow = self.gen_label(".tile_row_inner_");
        let irow_end = self.gen_label(".tile_row_inner_end_");
        let icol = self.gen_label(".tile_col_inner_");
        let icol_end = self.gen_label(".tile_col_inner_end_");
        let mut out: Vec<String> = Vec::new();
        out.push(lit("    ; === 2D Cache-Aware Loop Tiling ==="));
        out.push(lit("    xor rax, rax         ; row tile counter"));
        out.push(cat_num("    mov r8, ", tile_rows, "           ; tile row size"));
        out.push(cat_str("", orow.as_str(), ":"));
        out.push(cat_num("    cmp rax, ", rows, "          ; done with rows?"));
        out.push(cat_str("    jge ", orow_end.as_str(), ""));
        out.push(lit("    xor rbx, rbx         ; col tile counter"));
        out.push(cat_num("    mov r9, ", tile_cols, "           ; tile col size"));
        out.push(cat_str("", ocol.as_str(), ":"));
        out.push(cat_num("    cmp rbx, ", cols, "          ; done with cols?"));
        out.push(cat_str("    jge ", ocol_end.as_str(), ""));
        out.push(lit("    mov rcx, rax         ; row in tile"));
        out.push(cat_str("", irow.as_str(), ":"));
        out.push(lit("    cmp rcx, rax"));
        out.push(lit("    add rcx, r8          ; next row"));
        out.push(cat_num("    cmp rcx, ", rows, ""));
        out.push(cat_str("    jge ", irow_end.as_str(), ""));
        out.push(lit("    mov rdx, rbx         ; col in tile"));
        out.push(cat_str("", icol.as_str(), ":"));
        out.push(lit("    cmp rdx, rbx"));
        out.push(lit("    add rdx, r9          ; next col"));
        out.push(cat_num("    cmp rdx, ", cols, ""));
        out.push(cat_str("    jge ", icol_end.as_str(), ""));
        out.push(lit("    ; process matrix[rcx][rdx]"));
        out.push(lit("    mov rsi, rcx"));
        out.push(cat_num("    imul rsi, ", cols, "         ; row offset"));
        out.push(lit("    add rsi, rdx"));
        out.push(lit("    mov rdi, [rax + rsi * 8] ; load element"));
        out.push(lit("    add rdi, 1               ; process"));
        out.push(lit("    mov [rax + rsi * 8], rdi ; store element"));
        out.push(cat_str("    jmp ", icol.as_str(), ""));
        out.push(cat_str("", icol_end.as_str(), ":"));
        out.push(cat_str("    jmp ", irow.as_str(), ""));
        out.push(cat_str("", irow_end.as_str(), ":"));
        out.push(lit("    add rbx, r9          ; next col tile"));
        out.push(cat_str("    jmp ", ocol.as_str(), ""));
        out.push(cat_str("", ocol_end.as_str(), ":"));
        out.push(lit("    add rax, r8          ; next row tile"));
        out.push(cat_str("    jmp ", orow.as_str(), ""));
        out.push(cat_str("", orow_end.as_str(), ":"));
        out.push(lit("    ; === 2D Tiled Loop Complete ==="));
        proof {
            lemma_empty_str();
            let c = old(self).counter();
            let want = tiled_2d_lines(
                rows as nat,
                cols as nat,
                tile_rows as nat,
                tile_cols as nat,
                c,
            );
            assert(texts(out@) =~= want);
        }
        self.append_lines(out);
        join_strings(&self.instructions, "\n")
    }

    /// All lines emitted so far, joined by line feeds.
    pub fn get_assembly(&self) -> (r: String)
        ensures
            r@ == join(texts(self.instructions@), "\n"@),
    {
        join_strings(&self.instructions, "\n")
    }
}


/// The emitted tiled loop starts its induction register at the loop's start, keeps the
/// tile size in `rbx`, leaves the outer loop once the register reaches the loop's end,
/// ends each tile at the smaller of tile end and loop end, and steps element by element.
pub proof fn law_tiled_loop_runs_from_start_to_end(start: nat, end: nat, tile: nat, c: nat)
    ensures
        ({
            let ls = tiled_loop_lines(start, end, tile, c);
            &&& ls.len() == 22
            &&& ls[1] == "    mov rax, "@ + dec(start) + "          ; outer loop (tiles)"@
            &&& ls[2] == "    mov rbx, "@ + dec(tile) + "          ; tile size"@
            &&& ls[4] == "    cmp rax, "@ + dec(end) + "          ; check if done"@
            &&& ls[5] == "    jge "@ + label(".tile_outer_end_"@, c + 1)
            &&& ls[7] == "    add rcx, rbx         ; rcx = tile end"@
            &&& ls[8] == "    cmp rcx, "@ + dec(end)
            &&& ls[9] == "    cmovg rcx, "@ + dec(end) + "        ; min(tile_end, loop_end)"@
            &&& ls[16] == "    add rax, 8           ; next element (8 bytes)"@
        }),
{
}


/// The emitted 2-D tiled loop starts both tile counters at zero, keeps the tile sizes in
/// `r8` and `r9`, and stops the row tiles at `rows` and the column tiles at `cols`.
pub proof fn law_2d_tiled_loop_bounds(rows: nat, cols: nat, tile_rows: nat, tile_cols: nat, c: nat)
    ensures
        ({
            let ls = tiled_2d_lines(rows, cols, tile_rows, tile_cols, c);
            &&& ls[1] == "    xor rax, rax         ; row tile counter"@
            &&& ls[2] == "    mov r8, "@ + dec(tile_rows) + "           ; tile row size"@
            &&& ls[4] == "    cmp rax, "@ + dec(rows) + "          ; done with rows?"@
            &&& ls[6] == "    xor rbx, rbx         ; col tile counter"@
            &&& ls[7] == "    mov r9, "@ + dec(tile_cols) + "           ; tile col size"@
            &&& ls[9] == "    cmp rbx, "@ + dec(cols) + "          ; done with cols?"@
            &&& ls[15] == "    cmp rcx, "@ + dec(rows)
            &&& ls[21] == "    cmp rdx, "@ + dec(cols)
        }),
{
}

} // verus!
