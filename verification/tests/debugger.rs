use toast::debugger::{run_command, DebugAction};

#[test]
fn meminfo_arguments() {
    assert!(matches!(run_command("meminfo alloc"), DebugAction::ShowAllocatedMemory));
    assert!(matches!(run_command("meminfo virtual"), DebugAction::ShowVirtualMemory));
    assert!(matches!(run_command("meminfo physical extra"), DebugAction::ShowPhysicalMemory));
    assert!(matches!(run_command("meminfo map"), DebugAction::ShowMemoryMap));
    match run_command("meminfo heap") {
        DebugAction::UnrecognizedArgument(a) => assert_eq!(a, "heap"),
        _ => panic!("expected an unrecognized argument"),
    }
    match run_command("meminfo ") {
        DebugAction::UnrecognizedArgument(a) => assert_eq!(a, ""),
        _ => panic!("expected an unrecognized argument"),
    }
}

#[test]
fn cpuinfo_arguments() {
    assert!(matches!(run_command("cpuinfo regs"), DebugAction::ShowRegisters));
    match run_command("cpuinfo flags") {
        DebugAction::UnrecognizedArgument(a) => assert_eq!(a, "flags"),
        _ => panic!("expected an unrecognized argument"),
    }
}

#[test]
fn unknown_commands() {
    match run_command("reboot now") {
        DebugAction::UnrecognizedCommand(c) => assert_eq!(c, "reboot"),
        _ => panic!("expected an unrecognized command"),
    }
    match run_command(" meminfo alloc") {
        DebugAction::UnrecognizedCommand(c) => assert_eq!(c, ""),
        _ => panic!("expected an unrecognized command"),
    }
}
