# mitos-init

The PID 1 process of MITOS, as a verified library plus a thin program.

`src/` is the library, written in Verus. Every function there is proved
against its contract, except two items whose contracts are trusted: the
`external_body` wrapper `text::utf8_to_string` around `std::str::from_utf8`,
and the `assume_specification` of `String::push`. The modules:

- `cmdline` - the kernel command line (`key`, `key=value`, quoted values)
- `units` - `*.service` unit files and the order they are loaded in
- `cgroups` - memory sizes (`MemoryMax=128M`)
- `config` - service definitions
- `supervisor` - the service supervisor as a state machine: restart
  policies, crash-loop backoff, critical services, reloads, status text
- `backoff` - the sliding-window restart budget
- `notify` - sd_notify readiness (`READY=1`)
- `hotplug` - uevent payloads and the device permission rules
- `boot` - PID 1's own decisions: signals, shutdown priority, the
  `shutdown` command's arguments, supervising mitos-services
- `switch_root`, `mount` - reading `/proc/mounts`, `/proc/filesystems`,
  and the `root=`/`rootfstype=` parameters, and what the initramfs
  cleanup may remove
- `text`, `keyed` - shared text handling and the model of small keyed tables

`app/` is the program around it: mounting, the root switch, sockets,
signals, processes, utmp - everything that talks to the kernel - and the
`reboot`/`poweroff`/`halt`/`shutdown` commands, chosen by the name the
binary is run under.
