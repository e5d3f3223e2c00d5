//! Sandboxed-bot adapter: loads an untrusted compiled guest program into
//! an isolated virtual machine instance and exposes it as a controller.
//! The guest has no ambient authority; each turn the host copies the
//! board and the legal-move list into a guest-allocated scratch region,
//! invokes the guest's decision entry point, and decodes the low byte of
//! the answer as a position offset. The answer is wholly untrusted: the
//! match driver validates it against the legal-move set.

use vstd::prelude::*;
use crate::game::Game;
use crate::game::Pos;
use crate::game::valid_edge;
use crate::game::lemma_edge_sq;
use crate::game::lemma_offset_bound;
use crate::playercontroller::ControllerError;
use crate::playercontroller::PlayerController;

verus! {

/// The virtual-machine engine, held opaquely.
#[verifier::external_type_specification]
#[verifier::external_body]
pub struct ExEngine(wasmtime::Engine);

/// One instance's isolated state, held opaquely.
#[verifier::external_type_specification]
#[verifier::external_body]
#[verifier::reject_recursive_types(T)]
pub struct ExStore<T: 'static>(wasmtime::Store<T>);

/// An exported guest function with a checked signature, held opaquely.
#[verifier::external_type_specification]
#[verifier::external_body]
#[verifier::reject_recursive_types(Params)]
#[verifier::reject_recursive_types(Results)]
pub struct ExTypedFunc<Params, Results>(wasmtime::TypedFunc<Params, Results>);

/// A guest's exported linear memory, held opaquely.
#[verifier::external_type_specification]
#[verifier::external_body]
pub struct ExMemory(wasmtime::Memory);

/// One isolated guest: its store and the handles derived from it — the
/// exported linear memory and the two typed entry points. All four are
/// created together by `vm_guest` and never separated, so every handle
/// used by the call wrappers below belongs to the store beside it.
struct VmGuest {
    store: wasmtime::Store<()>,
    memory: wasmtime::Memory,
    alloc: wasmtime::TypedFunc<i32, i32>,
    answer: wasmtime::TypedFunc<(i32, i32, i32, i32, i32), i32>,
}

/// Relies on wasmtime::Config and wasmtime::Engine::new: a fresh engine
/// whose guest memories are bounds-checked within a small reservation
/// instead of guarded by huge virtual mappings, so instances fit in a
/// modest address space. Engine::new fails only on an unsupported
/// configuration, which this fixed one is not.
#[verifier::external_body]
fn vm_engine() -> Option<wasmtime::Engine> {
    let mut config = wasmtime::Config::new();
    config.memory_reservation(1 << 24);
    config.memory_reservation_for_growth(1 << 20);
    config.memory_guard_size(0);
    config.signals_based_traps(false);
    wasmtime::Engine::new(&config).ok()
}

/// Relies on wasmtime::Module::new (raw or text form), Store::new,
/// Instance::new (empty import list, so the guest receives no
/// capability from the host), Instance::get_func, Func::typed and
/// Instance::get_memory: loads the guest and locates the entry points
/// `alloc_wasm_memory` and `answer` and the export `memory` by name.
/// `None` exactly when a step fails: an unloadable module, a failed or
/// trapping instantiation, or a missing or ill-typed export. The store
/// and every handle are created together in this one body and never
/// separated, so the lookup and call functions' documented panic — a
/// handle used with a foreign store — is unreachable.
#[verifier::external_body]
fn vm_guest(engine: &wasmtime::Engine, wasm: &[u8]) -> Option<VmGuest> {
    let module = wasmtime::Module::new(engine, wasm).ok()?;
    let mut store = wasmtime::Store::new(engine, ());
    let instance = wasmtime::Instance::new(&mut store, &module, &[]).ok()?;
    let alloc = instance.get_func(&mut store, "alloc_wasm_memory")?.typed::<i32, i32>(
        &store,
    ).ok()?;
    let answer = instance.get_func(&mut store, "answer")?.typed::<
        (i32, i32, i32, i32, i32),
        i32,
    >(&store).ok()?;
    let memory = instance.get_memory(&mut store, "memory")?;
    Some(VmGuest { store, memory, alloc, answer })
}

/// Relies on wasmtime::TypedFunc::call, on the guest's own allocation
/// entry point and store (paired by construction in `vm_guest`): `None`
/// when the guest traps. The returned pointer is the guest's raw answer
/// and is not trusted.
#[verifier::external_body]
fn vm_call_alloc(guest: &mut VmGuest, size: i32) -> Option<i32>
    no_unwind
{
    guest.alloc.call(&mut guest.store, size).ok()
}

/// Relies on wasmtime::TypedFunc::call, on the guest's own decision
/// entry point and store (paired by construction in `vm_guest`): `None`
/// when the guest traps. A trap fails only this call and never the
/// host. The returned value is the guest's raw answer and is not
/// trusted.
#[verifier::external_body]
fn vm_call_answer(guest: &mut VmGuest, args: (i32, i32, i32, i32, i32)) -> Option<i32>
    no_unwind
{
    guest.answer.call(&mut guest.store, args).ok()
}

/// Relies on wasmtime::Memory::write, on the guest's own memory and
/// store (paired by construction in `vm_guest`): copies the buffer into
/// guest memory at the offset; `false` exactly when the target range
/// lies outside the guest's linear memory.
#[verifier::external_body]
fn vm_memory_write(guest: &mut VmGuest, offset: usize, buf: &[u8]) -> bool
    no_unwind
{
    guest.memory.write(&mut guest.store, offset, buf).is_ok()
}

/// Why a guest program could not be taken as a controller.
#[derive(Debug, Copy, Clone, PartialEq, Eq, Structural)]
pub enum SandboxError {
    /// The requested board edge length is not usable.
    InvalidConfiguration,
    /// The payload could not be loaded or instantiated, a required entry
    /// point was missing or ill-typed, or the one-time scratch
    /// allocation failed.
    LoadFailure,
}

/// The bytes handed to a guest for one turn: the serialized board in
/// the first `n²` positions — one byte per cell, at the cell's own
/// wire offset `x + y·n` — then the legal moves of the seat to move as
/// wire offsets in scan order, at most one per cell, zero-padded to
/// `2·n²` bytes. Returns the buffer and the number of move bytes.
pub fn turn_buffer(game: &Game) -> (r: (Vec<u8>, usize))
    requires
        game.wf(),
    ensures
        ({
            let n = game.edge();
            let ms = game.spec_legal_moves(game.whose_turn());
            &&& r.0@.len() == 2 * (n * n)
            &&& r.1 == (if ms.len() <= n * n {
                ms.len() as int
            } else {
                n * n
            })
            &&& forall|x: int, y: int|
                game.in_bounds(x, y) ==> r.0@[x + y * n] == crate::game::cell_code(
                    game.cell(x, y),
                )
            &&& forall|k: int|
                0 <= k < r.1 ==> (#[trigger] r.0@[n * n + k]) as int == ms[k].spec_to_offset(n)
            &&& forall|j: int| n * n + r.1 <= j < 2 * (n * n) ==> r.0@[j] == 0
        }),
{
    proof {
        lemma_edge_sq(game.edge());
    }
    let n = game.size();
    let nn = n * n;
    let mut buf = game.serialize();
    let ghost board_bytes = buf@;
    let legal = game.legal_moves(game.current_player());
    let mut count: usize = 0;
    while count < legal.len() && count < nn
        invariant
            game.wf(),
            n == game.edge(),
            nn == n * n,
            count <= nn,
            count <= legal@.len(),
            legal@ == game.spec_legal_moves(game.whose_turn()),
            forall|q: Pos| legal@.contains(q) <==> game.spec_is_legal(q, game.whose_turn()),
            buf@.len() == nn + count,
            buf@.take(nn as int) == board_bytes,
            board_bytes.len() == nn,
            forall|x: int, y: int|
                game.in_bounds(x, y) ==> board_bytes[x + y * game.edge()]
                    == crate::game::cell_code(game.cell(x, y)),
            forall|k: int|
                0 <= k < count ==> (#[trigger] buf@[nn + k]) as int == legal@[
                    k
                ].spec_to_offset(n as int),
        decreases legal@.len() - count,
    {
        let pos = legal[count];
        proof {
            assert(legal@.contains(legal@[count as int]));
        }
        let off = pos.to_offset(n);
        buf.push(off);
        proof {
            assert(buf@.take(nn as int) =~= board_bytes);
        }
        count += 1;
    }
    proof {
        assert(count == (if game.spec_legal_moves(game.whose_turn()).len() <= nn as int {
            game.spec_legal_moves(game.whose_turn()).len() as int
        } else {
            nn as int
        }));
    }
    while buf.len() < 2 * nn
        invariant
            game.wf(),
            n == game.edge(),
            nn == n * n,
            nn <= 256,
            count <= nn,
            count == (if game.spec_legal_moves(game.whose_turn()).len() <= nn as int {
                game.spec_legal_moves(game.whose_turn()).len() as int
            } else {
                nn as int
            }),
            nn + count <= buf@.len() <= 2 * nn,
            buf@.take(nn as int) == board_bytes,
            board_bytes.len() == nn,
            forall|x: int, y: int|
                game.in_bounds(x, y) ==> board_bytes[x + y * game.edge()]
                    == crate::game::cell_code(game.cell(x, y)),
            forall|k: int|
                0 <= k < count ==> (#[trigger] buf@[nn + k]) as int == legal@[
                    k
                ].spec_to_offset(n as int),
            legal@ == game.spec_legal_moves(game.whose_turn()),
            forall|j: int| nn + count <= j < buf@.len() ==> buf@[j] == 0,
        decreases 2 * nn - buf@.len(),
    {
        buf.push(0);
        proof {
            assert(buf@.take(nn as int) =~= board_bytes);
        }
    }
    proof {
        assert forall|x: int, y: int| game.in_bounds(x, y) implies buf@[x + y * game.edge()]
            == crate::game::cell_code(game.cell(x, y)) by {
            lemma_offset_bound(x, y, game.edge());
            assert(buf@[x + y * game.edge()] == buf@.take(nn as int)[x + y * game.edge()]);
        }
    }
    (buf, count)
}

/// A sandboxed guest acting as one seat's controller for a single game:
/// a fresh isolated instance with its entry points and memory, and the
/// scratch region the guest allocated once for this game's board size.
pub struct WasmPlayer {
    guest: VmGuest,
    n: usize,
    base: u32,
}

impl WasmPlayer {
    /// The adapter's invariant, established at construction: a valid
    /// edge length, and a scratch region whose end stays within the
    /// guest's 31-bit pointer range.
    #[verifier::type_invariant]
    spec fn inv(&self) -> bool {
        valid_edge(self.n as int) && self.base + 2 * (self.n * self.n) <= 0x7fff_ffff
    }

    /// The board edge length this adapter was built for.
    pub closed spec fn edge(&self) -> int {
        self.n as int
    }

    /// Loads a guest binary into a fresh isolated instance for one game
    /// on a `board_size`-edged board: locates the allocation and
    /// decision entry points and the exported memory by name, and asks
    /// the guest once for a scratch region of `board_size² × 2` bytes.
    /// An unusable edge length is rejected as such; any load,
    /// instantiation, lookup or allocation failure is a load failure.
    pub fn new(wasm: &[u8], board_size: usize) -> (r: Result<WasmPlayer, SandboxError>)
        ensures
            match r {
                Ok(p) => valid_edge(board_size as int) && p.edge() == board_size,
                Err(e) => if e == SandboxError::InvalidConfiguration {
                    !valid_edge(board_size as int)
                } else {
                    valid_edge(board_size as int)
                },
            },
            !valid_edge(board_size as int) ==> r == Err::<WasmPlayer, SandboxError>(
                SandboxError::InvalidConfiguration,
            ),
    {
        if board_size % 2 != 0 || board_size < 2 || board_size > 16 {
            return Err(SandboxError::InvalidConfiguration);
        }
        proof {
            lemma_edge_sq(board_size as int);
        }
        let engine = match vm_engine() {
            Some(e) => e,
            None => {
                return Err(SandboxError::LoadFailure);
            },
        };
        let mut guest = match vm_guest(&engine, wasm) {
            Some(g) => g,
            None => {
                return Err(SandboxError::LoadFailure);
            },
        };
        let nn = board_size * board_size;
        let scratch = 2 * nn;
        let ptr = match vm_call_alloc(&mut guest, scratch as i32) {
            Some(p) => p,
            None => {
                return Err(SandboxError::LoadFailure);
            },
        };
        if ptr < 0 || ptr > 0x7fff_ffff - (scratch as i32) {
            return Err(SandboxError::LoadFailure);
        }
        Ok(WasmPlayer { guest, n: board_size, base: ptr as u32 })
    }
}

impl PlayerController for WasmPlayer {
    /// One turn: hand the guest the turn buffer — the serialized board
    /// in the first `n²` scratch bytes, then the legal moves as raw
    /// offsets, as `turn_buffer`'s contract states — by copying it into
    /// the scratch region, invoke the decision entry point, and decode
    /// the low byte of the answer as a position offset against this
    /// adapter's board edge. Any guest trap, failed copy, or board-size
    /// mismatch fails only this call.
    fn make_play(&mut self, game: &Game) -> (r: Result<Pos, ControllerError>)
        ensures
            r matches Ok(p) ==> exists|a: u8|
                p == Pos::spec_from_offset(a as int, old(self).edge()),
            game.edge() != old(self).edge() ==> r == Err::<Pos, ControllerError>(
                ControllerError::Trap,
            ),
    {
        if game.size() != self.n {
            return Err(ControllerError::Trap);
        }
        proof {
            use_type_invariant(&*self);
            lemma_edge_sq(self.n as int);
        }
        let nn = self.n * self.n;
        let (buf, count) = turn_buffer(game);
        let base = self.base;
        let ok = vm_memory_write(&mut self.guest, base as usize, buf.as_slice());
        if !ok {
            return Err(ControllerError::Trap);
        }
        let code = game.current_player().serialize();
        let ans = match vm_call_answer(
            &mut self.guest,
            (
                base as i32,
                self.n as i32,
                base as i32 + nn as i32,
                count as i32,
                code as i32,
            ),
        ) {
            Some(v) => v,
            None => {
                return Err(ControllerError::Trap);
            },
        };
        let low = #[verifier::truncate] (ans as u8);
        let pos = Pos::from_offset(low, self.n);
        proof {
            assert(pos == Pos::spec_from_offset(low as int, old(self).edge()));
        }
        Ok(pos)
    }
}

} // verus!
