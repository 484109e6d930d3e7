use vulcano::dghv::context::{Context, DGHV_CTX_MEDIUM, DGHV_CTX_TINY, MAX_SECURITY};
use vulcano::dghv::parameters::{LARGE, MEDIUM, SMALL, TINY};

#[test]
fn context_auto_creation() {
    for i in 0..=MAX_SECURITY {
        assert!(Context::create(i).is_some());
    }
    for i in MAX_SECURITY + 1..u8::MAX {
        assert!(Context::create(i).is_none());
    }
}

#[test]
fn context_recommended_values() {
    let ctx = Context::create(42).unwrap();
    assert_eq!(ctx.security, 42);
    assert_eq!(ctx.noise_width, 42);
    assert_eq!(ctx.big_noise_width, 84);
    assert_eq!(ctx.sk_width, 1806);
    assert_eq!(ctx.pk_width, 136988712);
    assert_eq!(ctx.pk_count, 136988754);
}

#[test]
fn context_largest_security_fits() {
    let ctx = Context::create(84).unwrap();
    assert_eq!(ctx.sk_width, 7140);
    assert_eq!(ctx.pk_width, 4282286400);
    assert_eq!(ctx.pk_count, 4282286484);
    assert!(Context::create(85).is_none());
    assert!(Context::create(u8::MAX).is_none());
}

#[test]
fn context_presets() {
    assert_eq!(DGHV_CTX_TINY().security, 42);
    assert_eq!(DGHV_CTX_MEDIUM().pk_count, 2110);
    assert_eq!(TINY().kappa, TINY().gamma + 2);
    assert_eq!(SMALL().theta, SMALL().lambda);
    assert_eq!(MEDIUM().eta, 2128);
    assert_eq!(LARGE().theta_big, 7965);
}
