use rpi_monitor::power::{measured_rails, pmic_channels, power_rails};

#[test]
fn rail_table() {
    let rails = power_rails();
    assert_eq!(rails.len(), 12);
    assert_eq!(rails[0].rail, "VDD_CORE");
    assert_eq!((rails[0].current_channel, rails[0].voltage_channel), (7, 15));
    assert_eq!(rails[11].name, "Analog ADC");
}

#[test]
fn pmic_output_channels() {
    let out = "     3V7_WL_SW_A current(0)=0.00390372A\n     3V3_SYS_A current(1)=0.05270020A\n     VDD_CORE_V volt(15)=0.72000000V\n bad line\n x(1=2)\n (a)=1\n EXT5V_V volt(24)=-5.1x\n";
    let got = pmic_channels(out);
    let want = vec![
        (0, "0.00390372".to_string()),
        (1, "0.05270020".to_string()),
        (15, "0.72000000".to_string()),
        (24, "-5.1".to_string()),
    ];
    assert_eq!(got, want);
    assert!(pmic_channels("").is_empty());
}

#[test]
fn only_fully_measured_rails() {
    let rails = measured_rails(&vec![7, 15, 0]);
    assert_eq!(rails.len(), 1);
    assert_eq!(rails[0].rail, "VDD_CORE");
    let more = measured_rails(&vec![8, 0, 23, 22, 7]);
    let names: Vec<&str> = more.iter().map(|r| r.rail.as_str()).collect();
    assert_eq!(names, vec!["3V7_WL_SW", "HDMI"]);
    assert!(measured_rails(&vec![]).is_empty());
}
