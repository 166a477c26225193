use g13_suite::lcd::{
    bar_fill_width, cpu_fields, cpu_pct, cpu_sample, is_g13_hid, load_text, mem_fields, mem_pct, pct_text,
    uptime_text, CpuSample, LcdFrame,
};

#[test]
fn frame_layout() {
    let mut f = LcdFrame::new();
    assert_eq!(f.as_bytes().len(), 992);
    assert_eq!(f.as_bytes()[0], 3);
    assert!(f.as_bytes()[1..].iter().all(|b| *b == 0));
    f.set_pixel(0, 0, true);
    assert_eq!(f.as_bytes()[4], 1);
    f.set_pixel(5, 9, true);
    assert_eq!(f.as_bytes()[4 + 160 + 5], 2);
    f.set_pixel(159, 42, true);
    assert_eq!(f.as_bytes()[4 + 5 * 160 + 159], 4);
    f.set_pixel(0, 0, false);
    assert_eq!(f.as_bytes()[4], 0);
    f.set_pixel(160, 0, true);
    f.set_pixel(-1, 3, true);
    f.set_pixel(3, 43, true);
    let lit: usize = f.as_bytes().iter().map(|b| b.count_ones() as usize).sum();
    assert_eq!(lit, 2 + 2);
    f.clear();
    assert_eq!(f.as_bytes()[0], 3);
    assert!(f.as_bytes()[1..].iter().all(|b| *b == 0));
    assert_eq!(f.size(), (160, 43));
}

#[test]
fn cpu_counters() {
    let text = "cpu  10 20 30 40 50 60 70\ncpu0 1 2 3 4\n";
    let nums = cpu_fields(text).unwrap();
    assert_eq!(nums, vec![10, 20, 30, 40, 50, 60, 70]);
    let s = cpu_sample(&nums).unwrap();
    assert_eq!((s.total, s.idle), (280, 90));
    assert_eq!(cpu_fields(""), None);
    assert_eq!(cpu_fields("cpu 1 x 2\n").unwrap(), vec![1, 2]);
    assert!(cpu_sample(&vec![1, 2, 3]).is_none());
    let s4 = cpu_sample(&vec![1, 2, 3, 4]).unwrap();
    assert_eq!((s4.total, s4.idle), (10, 4));
}

#[test]
fn cpu_percentages() {
    let a = CpuSample { total: 1000, idle: 800 };
    let b = CpuSample { total: 1100, idle: 850 };
    assert_eq!(cpu_pct(a, b), 50);
    assert_eq!(cpu_pct(a, a), 0);
    assert_eq!(cpu_pct(b, a), 0);
    let c = CpuSample { total: 1100, idle: 700 };
    assert_eq!(cpu_pct(a, c), 100);
}

#[test]
fn memory() {
    let text = "MemTotal:       16000000 kB\nMemFree:  100 kB\nMemAvailable:    4000000 kB\n";
    assert_eq!(mem_fields(text), (16000000, 4000000));
    assert_eq!(mem_pct(16000000, 4000000), 75);
    assert_eq!(mem_pct(0, 0), 0);
    assert_eq!(mem_pct(10, 20), 0);
    assert_eq!(mem_fields(""), (0, 0));
    assert_eq!(mem_fields("MemTotal:\nMemAvailable: x\r\n"), (0, 0));
}

#[test]
fn uptime_lines() {
    assert_eq!(uptime_text(0), "Up 0m");
    assert_eq!(uptime_text(59), "Up 0m");
    assert_eq!(uptime_text(3661), "Up 1h 01m");
    assert_eq!(uptime_text(90061), "Up 1d 01h 01m");
    assert_eq!(uptime_text(864000 + 36000 + 600), "Up 10d 10h 10m");
}

#[test]
fn load_lines() {
    assert_eq!(load_text(Some("0.52 0.58 0.59 1/189 1234\n")), "Load 0.52 0.58 0.59");
    assert_eq!(load_text(Some("  1.0  \t 2.0\n")), "Load 1.0 2.0");
    assert_eq!(load_text(Some("")), "Load ");
    assert_eq!(load_text(None), "Load -");
}

#[test]
fn bars_and_percent_text() {
    assert_eq!(bar_fill_width(0), 0);
    assert_eq!(bar_fill_width(50), 59);
    assert_eq!(bar_fill_width(100), 118);
    assert_eq!(bar_fill_width(150), 118);
    assert_eq!(pct_text(5), "  5%");
    assert_eq!(pct_text(42), " 42%");
    assert_eq!(pct_text(100), "100%");
}

#[test]
fn hid_names() {
    assert!(is_g13_hid("0003:046D:C21C.0001"));
    assert!(is_g13_hid("0003:046d:c21c.0005"));
    assert!(!is_g13_hid("0003:046D:C52B.0001"));
}
