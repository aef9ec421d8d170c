use unei::lens::{cycle_sum, literal_at, modeline, number_hover, opcode_hover, ops_for, Family};

fn fam() -> Family {
    Family::Cmos65c02
}

#[test]
fn modeline_leaders() {
    for l in [
        "; asm: 65c02 acme",
        ";; asm: 65c02",
        "# asm: 65c02 gas",
        "// asm: 65c02",
        "/* asm: 65c02 gas */",
        "@ asm: 65C02",
    ] {
        assert_eq!(modeline(&[l.to_string()]), Some(Family::Cmos65c02), "{l}");
    }
    assert_eq!(
        modeline(&["# asm: rv32e gas".to_string()]),
        Some(Family::Other("rv32e".into()))
    );
    assert_eq!(modeline(&["the asm: directive".to_string()]), None);
    assert_eq!(modeline(&["lda #$10".to_string()]), None);
}

#[test]
fn number_bases() {
    let h = number_hover("$9F42").unwrap();
    assert!(h[0].contains("16-bit"));
    assert!(h[1].contains("dec 40770"));
    assert!(h[1].contains("i16 -24766"));
    assert!(h[2].contains("%1001'1111'0100'0010"));
    assert!(h[3].contains("lo $42 · hi $9F · swap $429F"));

    let h = number_hover("255").unwrap();
    assert!(h[0].contains("8-bit"));
    assert!(h[1].contains("hex $FF"));

    let h = number_hover("%11110000").unwrap();
    assert!(h[1].contains("dec 240"));
    assert!(number_hover("hello").is_none());
}

#[test]
fn literal_extraction() {
    let line = "    lda #$9f42   ; load";
    let col = line.find('9').unwrap();
    assert_eq!(literal_at(line, col).as_deref(), Some("$9f42"));
    assert_eq!(literal_at("done 100%", 6).as_deref(), Some("100"));
    assert_eq!(literal_at("abc", 1).as_deref(), Some("abc"));
}

#[test]
fn opcode_cycles_spot_checks() {
    let h = opcode_hover("   lda ($3e),y", &fam()).unwrap();
    assert!(h[0].contains("(zp),Y"), "{h:?}");
    assert!(h[1].contains("5 cycles · +1 if page crossed"), "{h:?}");

    let h = opcode_hover("jmp ($fffc)", &fam()).unwrap();
    assert!(h[1].contains("6 cycles (NMOS: 5)"), "{h:?}");

    let h = opcode_hover("asl $1000,x", &Family::Nmos6502).unwrap();
    assert!(h[1].starts_with("7 cycles"), "{h:?}");
    let h = opcode_hover("asl $1000,x", &fam()).unwrap();
    assert!(h[1].contains("6 cycles · +1 if page crossed"), "{h:?}");

    let h = opcode_hover("bne loop", &fam()).unwrap();
    assert!(h[1].contains("2 cycles · +1 taken"), "{h:?}");

    let h = opcode_hover("stz $10", &Family::Nmos6502).unwrap();
    assert!(h[1].contains("not available"), "{h:?}");

    let h = opcode_hover("loop:  dex", &fam()).unwrap();
    assert!(h[1].starts_with("2 cycles"), "{h:?}");

    assert!(opcode_hover("syscall SYSFN_PRINT", &fam()).is_none());
    assert!(opcode_hover(".section .text", &fam()).is_none());
}

#[test]
fn cycle_sum_msb_compare() {
    let lines: Vec<String> = ["  lda $17", "  cmp $1b", "  bcc next"]
        .iter()
        .map(|s| s.to_string())
        .collect();
    let out = cycle_sum(&lines, &fam());
    assert!(out[0].contains("3 instructions — 8 cycles"), "{out:?}");
    assert!(out[1].contains("+1 per taken branch (×1)"), "{out:?}");
}

#[test]
fn cycle_sum_honesty() {
    let lines: Vec<String> = ["  syscall 3", "  lda #1", "; comment", "  stz $10"]
        .iter()
        .map(|s| s.to_string())
        .collect();
    let out = cycle_sum(&lines, &Family::Nmos6502);
    assert!(out[0].contains("1 instruction — 2 cycles"), "{out:?}");
    assert!(out.iter().any(|l| l.contains("not counted: 1")), "{out:?}");
    assert!(out.iter().any(|l| l.contains("65C02-only")), "{out:?}");
}

#[test]
fn number_hover_exact_lines() {
    let h = number_hover("$9F42").unwrap();
    assert_eq!(h[0], "$9F42 — 16-bit");
    assert_eq!(h[1], "hex $9F42 · dec 40770 · i16 -24766");
    assert_eq!(h[2], "bin %1001'1111'0100'0010");
    assert_eq!(h[3], "lo $42 · hi $9F · swap $429F");
    let h = number_hover("70000").unwrap();
    assert_eq!(h[0], "70000 — 32-bit");
    assert_eq!(h[3], "bytes 70 11 01 00 (le)");
    let h = number_hover("0x1_0000_0000").map(|h| h.len());
    assert_eq!(h, None); // underscores are not digits here
    let h = number_hover("4294967296").unwrap();
    assert_eq!(h.len(), 2); // 64-bit: no binary, no bytes
    assert_eq!(h[0], "4294967296 — 64-bit");
}

#[test]
fn opcode_table_lookups() {
    assert_eq!(ops_for("lda").map(|o| o.len()), Some(9));
    assert_eq!(ops_for("RMB7").map(|o| o.len()), Some(1));
    assert_eq!(ops_for("bbs3").map(|o| o.len()), Some(1));
    assert!(ops_for("xyz").is_none());
    let h = opcode_hover("lda", &fam()).unwrap();
    assert!(h[0].contains("operand didn't parse"), "{h:?}");
    assert!(h[1].starts_with("modes: #imm · zp"), "{h:?}");
    let h = opcode_hover("adc #1", &fam()).unwrap();
    assert_eq!(h.len(), 3);
    assert_eq!(h[0], "ADC — #imm · 2 bytes");
}

#[test]
fn cycle_sum_empty_selection() {
    let out = cycle_sum(&[], &fam());
    assert_eq!(out, vec!["0 instructions — 0 cycles (65C02)".to_string()]);
}

#[test]
fn bit_mnemonics_take_bits_zero_to_seven() {
    assert_eq!(ops_for("rmb0").map(|o| o.len()), Some(1));
    assert_eq!(ops_for("BBS7").map(|o| o.len()), Some(1));
    assert!(ops_for("RMB8").is_none());
    assert!(ops_for("BBS9").is_none());
}

#[test]
fn mnemonics_ignore_case() {
    for m in ["lda", "Lda", "rmb0", "smb7", "bbr3", "nop", "syscall", "rmb8"] {
        let lower = ops_for(m).map(|v| v.len());
        let upper = ops_for(&m.to_ascii_uppercase()).map(|v| v.len());
        assert_eq!(lower, upper, "{m}");
    }
}
