use waveforge::safety::{check_a_after_align, check_r7_edges, check_r8_aa, SafetyError};

#[test]
fn edges_on_text() {
    assert_eq!(check_r7_edges("x = W(bank=\"stft\", edge=\"reflect\")(x)"), Ok(()));
    assert_eq!(check_r7_edges("x = W(edge=\"Zero\")(x)"), Err(SafetyError::ZeroPad));
    assert_eq!(check_r7_edges("x = W(edge='mirror')(x)"), Err(SafetyError::InvalidEdge));
    assert_eq!(check_r7_edges("x = W(edge=\"Toeplitz\")(x)"), Err(SafetyError::InvalidEdge));
    assert_eq!(check_r7_edges("x = W(pad_mode='zero')(x)"), Err(SafetyError::ZeroPad));
    assert_eq!(check_r7_edges("use ZERO-PAD here"), Err(SafetyError::ZeroPad));
    assert_eq!(SafetyError::ZeroPad.tag(), "Safety:R7-zero-pad");
}

#[test]
fn anti_alias_on_text() {
    assert_eq!(check_r8_aa("y = A(gain=2)(x)"), Ok(()));
    assert_eq!(check_r8_aa("y = D(2)(x)"), Err(SafetyError::NoAntiAlias));
    assert_eq!(check_r8_aa("y = down2(x)"), Err(SafetyError::NoAntiAlias));
    assert_eq!(check_r8_aa("y = D(2)(LPF(x))"), Ok(()));
    assert_eq!(check_r8_aa("y = decimate(q=2, aa=yes)(x)"), Ok(()));
    assert_eq!(check_r8_aa("z = W(n=8)(x)\ny = D(2)(z)"), Ok(()));
    assert_eq!(check_r8_aa("y = D(2)(A(anti-alias)(x))"), Ok(()));
}

#[test]
fn amplitude_after_alignment_on_text() {
    assert_eq!(check_a_after_align("y = A(g)(Align(r)(x))"), Err(SafetyError::AmplitudeAfterAlign));
    assert_eq!(check_a_after_align("t = Align(r)(x)\ny = A(g)(t)"), Err(SafetyError::AmplitudeAfterAlign));
    assert_eq!(check_a_after_align("t = Align(r)(x)\ny = A(g)(u)"), Ok(()));
    assert_eq!(check_a_after_align("y = Align(r)(A(g)(x))"), Ok(()));
}
