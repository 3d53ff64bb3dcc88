[package]
name = "memscan"
version = "0.1.0"
edition = "2021"
publish = false

[dependencies]
anyhow = "1"
thiserror = "1"
crossbeam-channel = "0.5"
threadpool = "1"
num_cpus = "1"
winapi = { version = "0.3", features = ["basetsd", "minwindef", "ntdef", "handleapi", "memoryapi", "processthreadsapi", "tlhelp32", "winnt", "wow64apiset", "synchapi", "winbase"] }
