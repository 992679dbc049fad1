//! Trusted bindings to the embedded Lua interpreter.
//!
//! Cell scripts run inside a Lua coroutine whose globals suspend: `SUM`,
//! `REL` and `POS`, and any unknown identifier, yield a small request and
//! wait for the engine's answer. The engine drives the coroutine one
//! resume at a time; what comes back is converted to plain values here and
//! interpreted by verified code.

use vstd::prelude::*;

verus! {

/// The Lua source that defines the script surface: suspending `SUM`,
/// `REL`, `POS`, and cell lookup for unknown globals. Each request yields
/// an opcode and its arguments; an answer of the form `(nil, message)`
/// raises inside the script.
pub const SCRIPT_PRELUDE: &'static str = "
local function ask(op, a, b)
    local v, e = coroutine.yield(op, a, b)
    if e ~= nil then error(e, 0) end
    return v
end
function SUM(r) return ask(2, r) end
function REL(dx, dy) return ask(3, dx, dy) end
function POS() return coroutine.yield(4) end
setmetatable(_G, { __index = function(t, k) return ask(1, k) end })
";

/// A Lua value brought over as plain data. Non-integer numbers are
/// truncated toward zero; strings are taken lossily as UTF-8; values with
/// no plain counterpart (tables, functions) come over as `Nil`.
#[derive(Debug)]
pub enum ScriptVal {
    Nil,
    Bool(bool),
    Int(i64),
    Str(String),
}

/// What the engine hands a suspended script when resuming it.
#[derive(Debug)]
pub enum ResumeArg {
    /// First resume: start the chunk, no arguments.
    Start,
    /// The asked-for value is empty.
    Nil,
    /// A numeric answer.
    Int(i64),
    /// A textual answer.
    Text(String),
    /// A coordinate pair (for `POS`).
    Pair(i64, i64),
    /// Make the suspended call raise a script error with this message.
    Raise(String),
}

/// What one resume of a cell script produced.
#[derive(Debug)]
pub enum Step {
    /// The chunk finished with this value.
    Done(ScriptVal),
    /// The chunk suspended: opcode and up to two arguments.
    Yielded(ScriptVal, ScriptVal, ScriptVal),
    /// The chunk failed; the message describes the script error.
    Failed(String),
}

#[verifier::external_type_specification]
#[verifier::external_body]
pub struct ExLua(mlua::Lua);

#[verifier::external_type_specification]
#[verifier::external_body]
pub struct ExThread(mlua::Thread);

#[verifier::external_type_specification]
#[verifier::external_body]
pub struct ExValue(mlua::Value);

#[verifier::external_type_specification]
#[verifier::external_body]
pub struct ExMultiValue(mlua::MultiValue);

/// Relies on mlua::Lua::new and Chunk::exec: a fresh interpreter with the
/// given prelude run in it, or None if the prelude fails.
#[verifier::external_body]
pub fn lua_new(prelude: &str) -> (r: Option<mlua::Lua>) {
    let lua = mlua::Lua::new();
    match lua.load(prelude).exec() {
        Ok(()) => Some(lua),
        Err(_) => None,
    }
}

/// Relies on mlua::Lua::load, Chunk::into_function and Lua::create_thread:
/// compiles the chunk and wraps it in a suspended coroutine; an error is
/// the compile failure's message.
#[verifier::external_body]
pub fn lua_spawn(lua: &mlua::Lua, chunk: &str) -> (r: Result<mlua::Thread, String>) {
    let f = match lua.load(chunk).into_function() {
        Ok(f) => f,
        Err(e) => {
            return Err(e.to_string());
        },
    };
    match lua.create_thread(f) {
        Ok(t) => Ok(t),
        Err(e) => Err(e.to_string()),
    }
}

/// Relies on mlua::Value's variants: moves one Lua value over as plain
/// data.
#[verifier::external_body]
pub fn lua_val_plain(v: mlua::Value) -> (r: ScriptVal) {
    match v {
        mlua::Value::Nil => ScriptVal::Nil,
        mlua::Value::Boolean(b) => ScriptVal::Bool(b),
        mlua::Value::Integer(i) => ScriptVal::Int(i),
        mlua::Value::Number(f) => ScriptVal::Int(f as i64),
        mlua::Value::String(s) => ScriptVal::Str(s.to_string_lossy()),
        _ => ScriptVal::Nil,
    }
}

/// Relies on mlua::MultiValue::pop_front: the first three yielded values.
#[verifier::external_body]
fn yielded_step(mut vals: mlua::MultiValue) -> (r: Step) {
    let a = vals.pop_front().map_or(ScriptVal::Nil, lua_val_plain);
    let b = vals.pop_front().map_or(ScriptVal::Nil, lua_val_plain);
    let c = vals.pop_front().map_or(ScriptVal::Nil, lua_val_plain);
    Step::Yielded(a, b, c)
}

/// Relies on mlua::MultiValue::pop_front: the chunk's first result.
#[verifier::external_body]
fn done_step(mut vals: mlua::MultiValue) -> (r: Step) {
    Step::Done(vals.pop_front().map_or(ScriptVal::Nil, lua_val_plain))
}

/// Relies on mlua::Thread::resume and Thread::status: hands the answer to
/// the suspended script and reports how it went on.
#[verifier::external_body]
pub fn lua_resume(th: &mlua::Thread, arg: ResumeArg) -> (r: Step) {
    let res: Result<mlua::MultiValue, mlua::Error> = match arg {
        ResumeArg::Start => th.resume(()),
        ResumeArg::Nil => th.resume(mlua::Value::Nil),
        ResumeArg::Int(i) => th.resume(i),
        ResumeArg::Text(s) => th.resume(s),
        ResumeArg::Pair(a, b) => th.resume((a, b)),
        ResumeArg::Raise(m) => th.resume((mlua::Value::Nil, m)),
    };
    match res {
        Err(e) => Step::Failed(e.to_string()),
        Ok(vals) if th.status() == mlua::prelude::LuaThreadStatus::Resumable => yielded_step(vals),
        Ok(vals) => done_step(vals),
    }
}

} // verus!
