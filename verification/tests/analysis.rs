//! End-to-end scenarios over whole documents.

use pdx::analyzer::{Config, PdfAnalyzer};
use pdx::report::{AnomalyKind, Severity};

fn build_pdf(objects: &[(u32, String)], extra_trailer: &str) -> Vec<u8> {
    let mut out = String::new();
    out.push_str("%PDF-1.4\n");
    let mut offsets: Vec<(u32, usize)> = Vec::new();
    for (num, body) in objects {
        offsets.push((*num, out.len()));
        out.push_str(&format!("{} 0 obj\n{}\nendobj\n", num, body));
    }
    let xref_off = out.len();
    out.push_str("xref\n0 1\n0000000000 65535 f \n");
    for (num, off) in &offsets {
        out.push_str(&format!("{} 1\n{:010} 00000 n \n", num, off));
    }
    out.push_str(&format!(
        "trailer\n<< /Size {} /Root 1 0 R{} >>\nstartxref\n{}\n%%EOF\n",
        objects.len() + 1,
        extra_trailer,
        xref_off
    ));
    out.into_bytes()
}

fn minimal_objects() -> Vec<(u32, String)> {
    vec![
        (1, "<< /Type /Catalog /Pages 2 0 R >>".to_string()),
        (2, "<< /Type /Pages /Kids [3 0 R] /Count 1 >>".to_string()),
        (
            3,
            "<< /Type /Page /Parent 2 0 R /Resources << /XObject << /Im0 4 0 R >> >> >>"
                .to_string(),
        ),
        (
            4,
            "<< /Subtype /Image /Width 2 /Height 2 /Length 4 >>\nstream\nABCD\nendstream"
                .to_string(),
        ),
    ]
}

#[test]
fn minimal_document_is_clean() {
    let bytes = build_pdf(&minimal_objects(), "");
    let mut an = PdfAnalyzer::load(bytes, Config::default()).unwrap();
    let a = an.analyze().unwrap();
    assert_eq!(a.page_count, 1);
    assert_eq!(a.javascript.len(), 0);
    assert_eq!(a.images.len(), 1);
    assert_eq!(a.images[0].dimensions, (2, 2));
    assert!(a.encryption.is_none());
    assert_eq!(a.anomalies.len(), 0);
    assert_eq!(a.objects.len(), 4);
    assert_eq!(a.version, "1.4");
    assert_eq!(a.embedded_files.len(), 0);
    assert_eq!(a.objects[0].kind_name, "Catalog");
    assert_eq!(a.objects[3].kind_name, "Image");
}

#[test]
fn embedded_files_and_metadata_are_inventoried() {
    let mut objs = minimal_objects();
    objs.push((5, "<< /Type /Filespec /F (payload.bin) >>".to_string()));
    objs.push((
        6,
        "<< /Title (Hello) /Producer (pdx) /Count 3 >>".to_string(),
    ));
    let bytes = build_pdf(&objs, " /Info 6 0 R");
    let mut an = PdfAnalyzer::load(bytes, Config::default()).unwrap();
    let a = an.analyze().unwrap();
    assert_eq!(a.embedded_files, vec!["5 0".to_string()]);
    assert!(a
        .metadata
        .contains(&("Title".to_string(), "Hello".to_string())));
    assert!(a
        .metadata
        .contains(&("Producer".to_string(), "pdx".to_string())));
    assert!(a.metadata.iter().all(|(k, _)| k != "Count"));
}

#[test]
fn encryption_reads_declared_parameters() {
    let mut objs = minimal_objects();
    objs.push((
        5,
        "<< /Filter /Standard /Length 128 /EncryptMetadata false >>".to_string(),
    ));
    let bytes = build_pdf(&objs, " /Encrypt 5 0 R");
    let mut an = PdfAnalyzer::load(bytes, Config::default()).unwrap();
    let a = an.analyze().unwrap();
    let e = a.encryption.expect("encryption summary");
    assert_eq!(e.method, "Standard");
    assert_eq!(e.strength, 128);
    assert!(!e.encrypted_metadata);
}

#[test]
fn open_action_javascript_is_flagged() {
    let mut objs = minimal_objects();
    objs[0] = (
        1,
        "<< /Type /Catalog /Pages 2 0 R /OpenAction 5 0 R >>".to_string(),
    );
    objs.push((5, "<< /S /JavaScript /JS (app.alert) >>".to_string()));
    let bytes = build_pdf(&objs, "");
    let mut an = PdfAnalyzer::load(bytes, Config::default()).unwrap();
    let a = an.analyze().unwrap();
    assert_eq!(a.javascript.len(), 1);
    assert!(a.javascript[0].suspicious);
    assert_eq!(a.javascript[0].location, "5 0");
    let autos: Vec<_> = a
        .anomalies
        .iter()
        .filter(|x| matches!(x.kind, AnomalyKind::AutoExecScript(5)))
        .collect();
    assert_eq!(autos.len(), 1);
    assert_eq!(autos[0].severity, Severity::Suspicious);
}

#[test]
fn incremental_update_shadows_object() {
    let mut base = String::from_utf8(build_pdf(&minimal_objects(), "")).unwrap();
    let base_xref = base.rfind("\nxref\n").unwrap() + 1;
    let new_obj_off = base.len();
    let new_body = "3 0 obj\n<< /Type /Page /Parent 2 0 R /Rotate 90 >>\nendobj\n";
    base.push_str(new_body);
    let new_xref = base.len();
    base.push_str(&format!(
        "xref\n3 1\n{:010} 00000 n \ntrailer\n<< /Size 5 /Root 1 0 R /Prev {} >>\nstartxref\n{}\n%%EOF\n",
        new_obj_off, base_xref, new_xref
    ));
    let bytes = base.into_bytes();
    let mut an = PdfAnalyzer::load(bytes.clone(), Config::default()).unwrap();
    let a = an.analyze().unwrap();
    // The live set reflects only the newest revision's view of
    // object 3.
    let entry = a.objects.iter().find(|o| o.id == (3, 0)).unwrap();
    let new_end = new_obj_off + new_body.trim_end().len();
    let expected = pdx::utils::calculate_hash(&bytes[new_obj_off..new_end]);
    assert_eq!(entry.hash, expected);
    let shadowed: Vec<_> = a
        .anomalies
        .iter()
        .filter(|x| matches!(x.kind, AnomalyKind::RevisionShadowed(3)))
        .collect();
    assert_eq!(shadowed.len(), 1);
}

#[test]
fn brute_force_recovers_same_objects() {
    let bytes = build_pdf(&minimal_objects(), "");
    let mut pristine = PdfAnalyzer::load(bytes.clone(), Config::default()).unwrap();
    let a = pristine.analyze().unwrap();
    // Corrupt the startxref offset so the chain cannot be used.
    let text = String::from_utf8(bytes.clone()).unwrap();
    let p = text.rfind("startxref\n").unwrap() + "startxref\n".len();
    let q = text[p..].find('\n').unwrap() + p;
    let corrupted = format!("{}99999999{}", &text[..p], &text[q..]).into_bytes();
    let mut rec = PdfAnalyzer::load(corrupted, Config::default()).unwrap();
    let b = rec.analyze().unwrap();
    let ids_a: Vec<_> = a.objects.iter().map(|o| o.id).collect();
    let ids_b: Vec<_> = b.objects.iter().map(|o| o.id).collect();
    assert_eq!(ids_a, ids_b);
    let hashes_a: Vec<_> = a.objects.iter().map(|o| o.hash.clone()).collect();
    let hashes_b: Vec<_> = b.objects.iter().map(|o| o.hash.clone()).collect();
    assert_eq!(hashes_a, hashes_b);
    assert_eq!(a.fingerprint, b.fingerprint);
    let recov: Vec<_> = b
        .anomalies
        .iter()
        .filter(|x| matches!(x.kind, AnomalyKind::BruteForceRecovery))
        .collect();
    assert_eq!(recov.len(), 1);
    assert_eq!(recov[0].severity, Severity::Info);
}

#[test]
fn length_mismatch_is_recorded_not_fatal() {
    let mut objs = minimal_objects();
    objs[3] = (
        4,
        "<< /Subtype /Image /Width 2 /Height 2 /Length 99 >>\nstream\nABCD\nendstream"
            .to_string(),
    );
    let bytes = build_pdf(&objs, "");
    let mut an = PdfAnalyzer::load(bytes, Config::default()).unwrap();
    let a = an.analyze().unwrap();
    assert_eq!(a.objects.len(), 4);
    assert_eq!(a.images.len(), 1);
    let mm: Vec<_> = a
        .anomalies
        .iter()
        .filter(|x| matches!(x.kind, AnomalyKind::LengthMismatch(4, 0)))
        .collect();
    assert_eq!(mm.len(), 1);
}

#[test]
fn reference_cycle_yields_one_anomaly() {
    let mut objs = minimal_objects();
    objs.push((5, "<< /B 6 0 R >>".to_string()));
    objs.push((6, "<< /C 5 0 R >>".to_string()));
    let bytes = build_pdf(&objs, "");
    let mut an = PdfAnalyzer::load(bytes, Config::default()).unwrap();
    let a = an.analyze().unwrap();
    let cyc: Vec<_> = a
        .anomalies
        .iter()
        .filter(|x| matches!(x.kind, AnomalyKind::CyclicReference(_)))
        .collect();
    assert_eq!(cyc.len(), 1);
    assert!(matches!(cyc[0].kind, AnomalyKind::CyclicReference(5)));
}

#[test]
fn fingerprint_stable_and_content_sensitive() {
    let bytes = build_pdf(&minimal_objects(), "");
    let mut an1 = PdfAnalyzer::load(bytes.clone(), Config::default()).unwrap();
    let mut an2 = PdfAnalyzer::load(bytes.clone(), Config::default()).unwrap();
    let a1 = an1.analyze().unwrap();
    let a2 = an2.analyze().unwrap();
    assert_eq!(a1.fingerprint, a2.fingerprint);
    // Change one live object's content: the fingerprint changes.
    let mut objs = minimal_objects();
    objs[3] = (
        4,
        "<< /Subtype /Image /Width 2 /Height 2 /Length 4 >>\nstream\nABCE\nendstream"
            .to_string(),
    );
    let changed = build_pdf(&objs, "");
    let mut an3 = PdfAnalyzer::load(changed, Config::default()).unwrap();
    let a3 = an3.analyze().unwrap();
    assert_ne!(a1.fingerprint, a3.fingerprint);
}

#[test]
fn repeated_analyze_reuses_cached_result() {
    let bytes = build_pdf(&minimal_objects(), "");
    let mut an = PdfAnalyzer::load(bytes, Config::default()).unwrap();
    let a1 = an.analyze().unwrap();
    let a2 = an.analyze().unwrap();
    assert_eq!(a1.fingerprint, a2.fingerprint);
    assert_eq!(a1.objects.len(), a2.objects.len());
    assert_eq!(a1.page_count, a2.page_count);
}

#[test]
fn build_result_summarizes() {
    let bytes = build_pdf(&minimal_objects(), "");
    let mut an = PdfAnalyzer::load(bytes, Config::default()).unwrap();
    let a = an.analyze().unwrap();
    let r = pdx::analyzer::build_result("doc.pdf".to_string(), &a);
    assert_eq!(r.metadata.page_count, 1);
    assert!(!r.forensics.javascript_found);
    assert_eq!(r.forensics.image_count, 1);
    assert!(!r.security.encrypted);
}

#[test]
fn encryption_presence_is_reported() {
    let objs = minimal_objects();
    let bytes = build_pdf(&objs, " /Encrypt 7 0 R");
    let mut an = PdfAnalyzer::load(bytes, Config::default()).unwrap();
    let a = an.analyze().unwrap();
    assert!(a.encryption.is_some());
    assert_eq!(a.encryption.as_ref().unwrap().strength, 40);
}
