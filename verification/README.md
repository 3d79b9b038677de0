# ferros

The logic of a small kernel for x86-64, written in Verus: what it decides is stated in contracts and
proved, and the machine is touched elsewhere.

- `src/` is the library.
  - `fs`: a FAT32 volume on a disk of sectors, paths, and the file system that a kernel sees.
  - `mm`: physical frames, address spaces, the memory of a process, the pages of the kernel's heap.
  - `sched`: threads and processes, and cooperative tasks.
  - `syscall`: the state that system calls work on, the calls, program files, and the laws that hold
    across calls.
  - `arch`: how a call enters and leaves, `fork` and `execve`, the first stack of a program.
  - `drivers`: screen, console input, keyboard, bus, serial line, disk and network card.
  - `net`: names, echo requests and datagram sockets over a protocol stack.
- `app/` is the kernel as a program around the library: ports, interrupts, page tables, devices.
- `tests/` runs the library on concrete values, with the outside crates linked.

A call that has to wait returns the switch to another thread and is made anew later. A disk is held
as its sectors, which the program reads once, and a log of the writes of a call. The writes are then
made on the device in the same order. Where the device refuses one, those before it are put back,
the last one first, and the call is made anew with that answer to that write. Putting back needs the
device to accept the restoring writes: where it refuses one of those too, the writes before it stay
on the device, and the call is made anew with nothing but refusals. A file that is being written is
whole nonetheless, with its old contents or its new ones, since its entry is written after the new
contents and before the old ones are freed. Calls into outside crates stand behind small functions
whose contracts say what those crates do.
