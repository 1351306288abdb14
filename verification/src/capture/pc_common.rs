//! The shapes of what the capture collaborator observes: windows and the
//! processes behind them, and how they pass into and out of a rule's
//! variable store.

use vstd::prelude::*;

use crate::scripting::value::{
    lemma_entries_model_all, lookup, VarModel, Variable, VariableMap,
};

verus! {

/// A network a machine is on: its stored identifier and its name.
pub struct NetworkInfo {
    pub id: String,
    pub name: String,
}

/// One observed process.
pub struct Process {
    pub name: String,
    pub cmd: String,
    pub exe: String,
    pub cwd: String,
    pub memory: i64,
    pub status: String,
    pub start_time: u64,
    pub cpu_usage: Option<String>,
}

/// One observed window: its title, if it has one, and its process.
pub struct Window {
    pub title: Option<String>,
    pub process: Process,
}

/// The model of an observed window.
pub struct WindowModel {
    pub title: Option<Seq<char>>,
    pub name: Seq<char>,
    pub cmd: Seq<char>,
    pub exe: Seq<char>,
    pub cwd: Seq<char>,
    pub memory: int,
    pub status: Seq<char>,
    pub start_time: nat,
    pub cpu_usage: Option<Seq<char>>,
}

impl View for Window {
    type V = WindowModel;

    open spec fn view(&self) -> WindowModel {
        WindowModel {
            title: match self.title {
                Some(t) => Some(t@),
                None => None,
            },
            name: self.process.name@,
            cmd: self.process.cmd@,
            exe: self.process.exe@,
            cwd: self.process.cwd@,
            memory: self.process.memory as int,
            status: self.process.status@,
            start_time: self.process.start_time as nat,
            cpu_usage: match self.process.cpu_usage {
                Some(c) => Some(c@),
                None => None,
            },
        }
    }
}

/// The memory figure a window's record carries: sizes below zero read as
/// zero, and sizes beyond the machine word are capped at it.
pub open spec fn memory_value(m: int) -> nat {
    if m < 0 {
        0
    } else if m > usize::MAX {
        usize::MAX as nat
    } else {
        m as nat
    }
}

/// A stored memory figure read back into a signed size, capped at the
/// largest one.
pub open spec fn clamp_i64(n: nat) -> int {
    if n <= i64::MAX {
        n as int
    } else {
        i64::MAX as int
    }
}

/// The record that an observed window writes into the variable store, entry
/// by entry in order: the title where there is one, the process fields, and
/// the processor usage where there is one.
pub open spec fn window_record_model(w: WindowModel) -> Seq<(Seq<char>, VarModel)> {
    let base: Seq<(Seq<char>, VarModel)> = match w.title {
        Some(t) => seq![("TITLE"@, VarModel::Text(t))],
        None => Seq::empty(),
    };
    let mid = base + seq![
        ("PROCESS_NAME"@, VarModel::Text(w.name)),
        ("CMD"@, VarModel::Text(w.cmd)),
        ("EXE"@, VarModel::Text(w.exe)),
        ("CWD"@, VarModel::Text(w.cwd)),
        ("MEMORY"@, VarModel::Int(memory_value(w.memory))),
        ("STATUS"@, VarModel::Text(w.status)),
        ("START_TIME"@, VarModel::Counter(w.start_time)),
    ];
    match w.cpu_usage {
        Some(c) => mid.push(("CPU_USAGE"@, VarModel::Text(c))),
        None => mid,
    }
}

impl Window {
    /// The record this window writes into the variable store; see
    /// `window_record_model`.
    pub fn to_record(&self) -> (m: VariableMap)
        ensures
            m@ == window_record_model(self@),
    {
        let mut entries: Vec<(String, Variable)> = Vec::new();
        match &self.title {
            Some(t) => {
                entries.push(("TITLE".to_owned(), Variable::Text(t.clone())));
            },
            None => {},
        }
        entries.push(("PROCESS_NAME".to_owned(), Variable::Text(self.process.name.clone())));
        entries.push(("CMD".to_owned(), Variable::Text(self.process.cmd.clone())));
        entries.push(("EXE".to_owned(), Variable::Text(self.process.exe.clone())));
        entries.push(("CWD".to_owned(), Variable::Text(self.process.cwd.clone())));
        let mem: usize = if self.process.memory < 0 {
            0
        } else if (self.process.memory as u64) >= (usize::MAX as u64) {
            usize::MAX
        } else {
            self.process.memory as usize
        };
        entries.push(("MEMORY".to_owned(), Variable::Int(mem)));
        entries.push(("STATUS".to_owned(), Variable::Text(self.process.status.clone())));
        entries.push(("START_TIME".to_owned(), Variable::Counter64(self.process.start_time)));
        match &self.process.cpu_usage {
            Some(c) => {
                entries.push(("CPU_USAGE".to_owned(), Variable::Text(c.clone())));
            },
            None => {},
        }
        let ghost entries_view = entries@;
        let m = VariableMap::from_entries(entries);
        proof {
            lemma_entries_model_all(entries_view);
            assert(m@ =~= window_record_model(self@));
        }
        m
    }
}

/// The window that a well-formed record denotes: `TITLE` and `CPU_USAGE`
/// are optional texts, `MEMORY` a number, `START_TIME` a counter, and the
/// other fields required texts; any other shape denotes nothing.
pub open spec fn record_to_window(entries: Seq<(Seq<char>, VarModel)>) -> Option<WindowModel> {
    let title = lookup(entries, "TITLE"@);
    let name = lookup(entries, "PROCESS_NAME"@);
    let cmd = lookup(entries, "CMD"@);
    let exe = lookup(entries, "EXE"@);
    let cwd = lookup(entries, "CWD"@);
    let memory = lookup(entries, "MEMORY"@);
    let status = lookup(entries, "STATUS"@);
    let start_time = lookup(entries, "START_TIME"@);
    let cpu = lookup(entries, "CPU_USAGE"@);
    if (title is None || title matches Some(VarModel::Text(_))) && (name matches Some(
        VarModel::Text(_),
    )) && (cmd matches Some(VarModel::Text(_))) && (exe matches Some(VarModel::Text(_))) && (
    cwd matches Some(VarModel::Text(_))) && (memory matches Some(VarModel::Int(_))) && (
    status matches Some(VarModel::Text(_))) && (start_time matches Some(VarModel::Counter(_)))
        && (cpu is None || cpu matches Some(VarModel::Text(_))) {
        Some(
            WindowModel {
                title: match title {
                    Some(VarModel::Text(t)) => Some(t),
                    _ => None,
                },
                name: name->0->Text_0,
                cmd: cmd->0->Text_0,
                exe: exe->0->Text_0,
                cwd: cwd->0->Text_0,
                memory: clamp_i64(memory->0->Int_0),
                status: status->0->Text_0,
                start_time: start_time->0->Counter_0,
                cpu_usage: match cpu {
                    Some(VarModel::Text(t)) => Some(t),
                    _ => None,
                },
            },
        )
    } else {
        None
    }
}

impl Window {
    /// Reads a window back out of a variable-store record; see
    /// `record_to_window`.
    pub fn from_record(m: &VariableMap) -> (r: Option<Window>)
        ensures
            match r {
                Some(w) => record_to_window(m@) == Some(w@),
                None => record_to_window(m@) is None,
            },
    {
        let title: Option<String> = match m.get("TITLE") {
            Some(Variable::Text(t)) => Some(t.clone()),
            None => None,
            _ => {
                return None;
            },
        };
        let name: String = match m.get("PROCESS_NAME") {
            Some(Variable::Text(t)) => t.clone(),
            _ => {
                return None;
            },
        };
        let cmd: String = match m.get("CMD") {
            Some(Variable::Text(t)) => t.clone(),
            _ => {
                return None;
            },
        };
        let exe: String = match m.get("EXE") {
            Some(Variable::Text(t)) => t.clone(),
            _ => {
                return None;
            },
        };
        let cwd: String = match m.get("CWD") {
            Some(Variable::Text(t)) => t.clone(),
            _ => {
                return None;
            },
        };
        let memory: i64 = match m.get("MEMORY") {
            Some(Variable::Int(n)) => {
                if (*n as u64) <= (i64::MAX as u64) {
                    *n as i64
                } else {
                    i64::MAX
                }
            },
            _ => {
                return None;
            },
        };
        let status: String = match m.get("STATUS") {
            Some(Variable::Text(t)) => t.clone(),
            _ => {
                return None;
            },
        };
        let start_time: u64 = match m.get("START_TIME") {
            Some(Variable::Counter64(n)) => *n,
            _ => {
                return None;
            },
        };
        let cpu_usage: Option<String> = match m.get("CPU_USAGE") {
            Some(Variable::Text(t)) => Some(t.clone()),
            None => None,
            _ => {
                return None;
            },
        };
        Some(
            Window {
                title,
                process: Process {
                    name,
                    cmd,
                    exe,
                    cwd,
                    memory,
                    status,
                    start_time,
                    cpu_usage,
                },
            },
        )
    }
}

} // verus!
