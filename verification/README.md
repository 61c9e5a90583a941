# port_manager

A desktop port manager (Tauri): it lists the TCP and UDP sockets of the machine with the
process behind each one, terminates a chosen process, and restarts itself with
administrator rights at start.

- `src/` is the verified library (Verus). It holds the logic: reading `netstat`, `lsof`
  and `/proc/net` output into sockets, naming processes, building and sorting the port
  list, the decisions and messages of process termination, the elevation plan with its
  quoting for the Windows command line, the POSIX shell and AppleScript, and UTF-16
  conversion.
- `app/` is the program around it: it runs the commands, reads `/proc`, calls the
  operating system, executes the elevation plan and serves the Tauri commands.
- `tests/` runs the library on concrete inputs.
