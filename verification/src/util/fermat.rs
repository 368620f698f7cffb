//! Fermat's little theorem for the field modulus: `a^(p-1) = 1` for every
//! `a` that `p` does not divide.  The order of 7 is `p - 1 = 2^32 · 3 · 5
//! · 17 · 257 · 65537` (checked against each prime factor by chains of
//! squarings), so the powers of 7 are all the nonzero residues.  The
//! Lagrange denominators of the interpolation grids then pass the
//! inversion check.
use crate::util::field::{fmul, fpow, fsub, p};
use crate::util::poly::{interp_defined, inv_ok, prod_except};
use vstd::arithmetic::div_mod::*;
use vstd::arithmetic::power::*;
use vstd::prelude::*;
use vstd::relations::injective_on;
use vstd::set_lib::{lemma_int_range, lemma_map_size, lemma_subset_equality, set_int_range};

verus! {

proof fn lemma_fpow_one(q: int)
    requires
        0 <= q < p(),
    ensures
        fpow(q, 1) == q,
{
    lemma_pow1(q);
    lemma_small_mod(q as nat, p() as nat);
}

/// `q^(2e) = (q^e)^2`.
proof fn lemma_fpow_even_step(q: int, e: nat)
    ensures
        fpow(q, 2 * e) == (fpow(q, e) * fpow(q, e)) % p(),
{
    lemma_pow_adds(q, e, e);
    assert(e + e == 2 * e);
    lemma_mul_mod_noop(pow(q, e), pow(q, e), p());
}

/// `q^(2e+1) = (q^e)^2 · q`.
proof fn lemma_fpow_odd_step(q: int, e: nat)
    ensures
        fpow(q, 2 * e + 1) == (fpow(q, e) * fpow(q, e) * q) % p(),
{
    lemma_pow_adds(q, 2 * e, 1);
    lemma_pow1(q);
    lemma_pow_adds(q, e, e);
    assert(e + e == 2 * e);
    let a = pow(q, e);
    let b = a % p();
    lemma_mul_mod_noop(a, a, p());
    lemma_mul_mod_noop_left(a * a, q, p());
    lemma_mul_mod_noop_left(b * b, q, p());
    assert(pow(q, 2 * e + 1) == a * a * q);
}

/// `fpow(a·b, e) = fpow(a, e) · fpow(b, e)`.
proof fn lemma_fpow_mul(a: int, b: int, e: nat)
    ensures
        fpow(fmul(a, b), e) == fmul(fpow(a, e), fpow(b, e)),
{
    lemma_pow_mod_noop(a * b, e, p());
    lemma_pow_distributes(a, b, e);
    lemma_mul_mod_noop(pow(a, e), pow(b, e), p());
}

/// `a^(p-1) = 1` makes `a · a^(p-2) = 1`.
proof fn lemma_inv_ok_of_fermat(a: int)
    requires
        fpow(a, (p() - 1) as nat) == 1,
    ensures
        inv_ok(a),
{
    let e = (p() - 2) as nat;
    lemma_pow_adds(a, e, 1);
    lemma_pow1(a);
    assert(e + 1 == (p() - 1) as nat);
    lemma_mul_mod_noop_right(a, pow(a, e), p());
}

/// `7^((p-1)/2) = 18446744069414584320`, which is not 1.
proof fn lemma_seven_pow_over_2()
    ensures
        fpow(7, ((p() - 1) / 2) as nat) == 18446744069414584320,
{
    lemma_fpow_one(7);
    lemma_fpow_odd_step(7, 1);
    assert(fpow(7, 3) == 343);
    lemma_fpow_odd_step(7, 3);
    assert(fpow(7, 7) == 823543);
    lemma_fpow_odd_step(7, 7);
    assert(fpow(7, 15) == 4747561509943);
    lemma_fpow_odd_step(7, 15);
    assert(fpow(7, 31) == 11074261478625843323);
    lemma_fpow_odd_step(7, 31);
    assert(fpow(7, 63) == 12148266161370408270);
    lemma_fpow_odd_step(7, 63);
    assert(fpow(7, 127) == 7007601668316978083);
    lemma_fpow_odd_step(7, 127);
    assert(fpow(7, 255) == 8125271997680889877);
    lemma_fpow_odd_step(7, 255);
    assert(fpow(7, 511) == 2624486902016877951);
    lemma_fpow_odd_step(7, 511);
    assert(fpow(7, 1023) == 8253119735826302939);
    lemma_fpow_odd_step(7, 1023);
    assert(fpow(7, 2047) == 3543566522599720475);
    lemma_fpow_odd_step(7, 2047);
    assert(fpow(7, 4095) == 11981551684735969599);
    lemma_fpow_odd_step(7, 4095);
    assert(fpow(7, 8191) == 10062120588441922115);
    lemma_fpow_odd_step(7, 8191);
    assert(fpow(7, 16383) == 10485806445487905393);
    lemma_fpow_odd_step(7, 16383);
    assert(fpow(7, 32767) == 4139485063330164956);
    lemma_fpow_odd_step(7, 32767);
    assert(fpow(7, 65535) == 12134830135347446949);
    lemma_fpow_odd_step(7, 65535);
    assert(fpow(7, 131071) == 4326791766630348883);
    lemma_fpow_odd_step(7, 131071);
    assert(fpow(7, 262143) == 206761543466863628);
    lemma_fpow_odd_step(7, 262143);
    assert(fpow(7, 524287) == 10086585273483141421);
    lemma_fpow_odd_step(7, 524287);
    assert(fpow(7, 1048575) == 1855730417186139594);
    lemma_fpow_odd_step(7, 1048575);
    assert(fpow(7, 2097151) == 7626447102712710903);
    lemma_fpow_odd_step(7, 2097151);
    assert(fpow(7, 4194303) == 7790920094560990216);
    lemma_fpow_odd_step(7, 4194303);
    assert(fpow(7, 8388607) == 5901922255895126089);
    lemma_fpow_odd_step(7, 8388607);
    assert(fpow(7, 16777215) == 8935258787870022506);
    lemma_fpow_odd_step(7, 16777215);
    assert(fpow(7, 33554431) == 13093775858033092690);
    lemma_fpow_odd_step(7, 33554431);
    assert(fpow(7, 67108863) == 11243737384857129666);
    lemma_fpow_odd_step(7, 67108863);
    assert(fpow(7, 134217727) == 2063617152444052883);
    lemma_fpow_odd_step(7, 134217727);
    assert(fpow(7, 268435455) == 13064848991504552222);
    lemma_fpow_odd_step(7, 268435455);
    assert(fpow(7, 536870911) == 16593403251012455084);
    lemma_fpow_odd_step(7, 536870911);
    assert(fpow(7, 1073741823) == 5859133952941131217);
    lemma_fpow_odd_step(7, 1073741823);
    assert(fpow(7, 2147483647) == 15659105665374529263);
    lemma_fpow_odd_step(7, 2147483647);
    assert(fpow(7, 4294967295) == 1753635133440165772);
    lemma_fpow_even_step(7, 4294967295);
    assert(fpow(7, 8589934590) == 4614640910117430873);
    lemma_fpow_even_step(7, 8589934590);
    assert(fpow(7, 17179869180) == 9123114210336311365);
    lemma_fpow_even_step(7, 17179869180);
    assert(fpow(7, 34359738360) == 16116352524544190054);
    lemma_fpow_even_step(7, 34359738360);
    assert(fpow(7, 68719476720) == 6414415596519834757);
    lemma_fpow_even_step(7, 68719476720);
    assert(fpow(7, 137438953440) == 1213594585890690845);
    lemma_fpow_even_step(7, 137438953440);
    assert(fpow(7, 274877906880) == 17096174751763063430);
    lemma_fpow_even_step(7, 274877906880);
    assert(fpow(7, 549755813760) == 5456943929260765144);
    lemma_fpow_even_step(7, 549755813760);
    assert(fpow(7, 1099511627520) == 9713644485405565297);
    lemma_fpow_even_step(7, 1099511627520);
    assert(fpow(7, 2199023255040) == 16905767614792059275);
    lemma_fpow_even_step(7, 2199023255040);
    assert(fpow(7, 4398046510080) == 5416168637041100469);
    lemma_fpow_even_step(7, 4398046510080);
    assert(fpow(7, 8796093020160) == 17654865857378133588);
    lemma_fpow_even_step(7, 8796093020160);
    assert(fpow(7, 17592186040320) == 3511170319078647661);
    lemma_fpow_even_step(7, 17592186040320);
    assert(fpow(7, 35184372080640) == 18146160046829613826);
    lemma_fpow_even_step(7, 35184372080640);
    assert(fpow(7, 70368744161280) == 9306717745644682924);
    lemma_fpow_even_step(7, 70368744161280);
    assert(fpow(7, 140737488322560) == 12380578893860276750);
    lemma_fpow_even_step(7, 140737488322560);
    assert(fpow(7, 281474976645120) == 6115771955107415310);
    lemma_fpow_even_step(7, 281474976645120);
    assert(fpow(7, 562949953290240) == 17776499369601055404);
    lemma_fpow_even_step(7, 562949953290240);
    assert(fpow(7, 1125899906580480) == 16207902636198568418);
    lemma_fpow_even_step(7, 1125899906580480);
    assert(fpow(7, 2251799813160960) == 1532612707718625687);
    lemma_fpow_even_step(7, 2251799813160960);
    assert(fpow(7, 4503599626321920) == 17492915097719143606);
    lemma_fpow_even_step(7, 4503599626321920);
    assert(fpow(7, 9007199252643840) == 455906449640507599);
    lemma_fpow_even_step(7, 9007199252643840);
    assert(fpow(7, 18014398505287680) == 11353340290879379826);
    lemma_fpow_even_step(7, 18014398505287680);
    assert(fpow(7, 36028797010575360) == 1803076106186727246);
    lemma_fpow_even_step(7, 36028797010575360);
    assert(fpow(7, 72057594021150720) == 13797081185216407910);
    lemma_fpow_even_step(7, 72057594021150720);
    assert(fpow(7, 144115188042301440) == 17870292113338400769);
    lemma_fpow_even_step(7, 144115188042301440);
    assert(fpow(7, 288230376084602880) == 549755813888);
    lemma_fpow_even_step(7, 288230376084602880);
    assert(fpow(7, 576460752169205760) == 70368744161280);
    lemma_fpow_even_step(7, 576460752169205760);
    assert(fpow(7, 1152921504338411520) == 17293822564807737345);
    lemma_fpow_even_step(7, 1152921504338411520);
    assert(fpow(7, 2305843008676823040) == 18446744069397807105);
    lemma_fpow_even_step(7, 2305843008676823040);
    assert(fpow(7, 4611686017353646080) == 281474976710656);
    lemma_fpow_even_step(7, 4611686017353646080);
    assert(fpow(7, 9223372034707292160) == 18446744069414584320);
    assert((p() - 1) / 2 == 9223372034707292160);
}

/// `7^((p-1)/3) = 18446744065119617025`, which is not 1.
proof fn lemma_seven_pow_over_3()
    ensures
        fpow(7, ((p() - 1) / 3) as nat) == 18446744065119617025,
{
    lemma_fpow_one(7);
    lemma_fpow_even_step(7, 1);
    assert(fpow(7, 2) == 49);
    lemma_fpow_odd_step(7, 2);
    assert(fpow(7, 5) == 16807);
    lemma_fpow_even_step(7, 5);
    assert(fpow(7, 10) == 282475249);
    lemma_fpow_odd_step(7, 10);
    assert(fpow(7, 21) == 558545864083284007);
    lemma_fpow_even_step(7, 21);
    assert(fpow(7, 42) == 8022122801911579307);
    lemma_fpow_odd_step(7, 42);
    assert(fpow(7, 85) == 12800950874161730379);
    lemma_fpow_even_step(7, 85);
    assert(fpow(7, 170) == 14271156885488964304);
    lemma_fpow_odd_step(7, 170);
    assert(fpow(7, 341) == 9587782661304029968);
    lemma_fpow_even_step(7, 341);
    assert(fpow(7, 682) == 10276868313419320864);
    lemma_fpow_odd_step(7, 682);
    assert(fpow(7, 1365) == 15061306595140985043);
    lemma_fpow_even_step(7, 1365);
    assert(fpow(7, 2730) == 10087193495066827832);
    lemma_fpow_odd_step(7, 2730);
    assert(fpow(7, 5461) == 12984983231508602376);
    lemma_fpow_even_step(7, 5461);
    assert(fpow(7, 10922) == 1362657970957379548);
    lemma_fpow_odd_step(7, 10922);
    assert(fpow(7, 21845) == 11834541208736377360);
    lemma_fpow_even_step(7, 21845);
    assert(fpow(7, 43690) == 15486580570079272365);
    lemma_fpow_odd_step(7, 43690);
    assert(fpow(7, 87381) == 2195267778297645936);
    lemma_fpow_even_step(7, 87381);
    assert(fpow(7, 174762) == 12545318111885672966);
    lemma_fpow_odd_step(7, 174762);
    assert(fpow(7, 349525) == 3239519442280833256);
    lemma_fpow_even_step(7, 349525);
    assert(fpow(7, 699050) == 11109814195885452171);
    lemma_fpow_odd_step(7, 699050);
    assert(fpow(7, 1398101) == 4804669246163822745);
    lemma_fpow_even_step(7, 1398101);
    assert(fpow(7, 2796202) == 438903447396483212);
    lemma_fpow_odd_step(7, 2796202);
    assert(fpow(7, 5592405) == 5017700972839514350);
    lemma_fpow_even_step(7, 5592405);
    assert(fpow(7, 11184810) == 7499557959359525151);
    lemma_fpow_odd_step(7, 11184810);
    assert(fpow(7, 22369621) == 8616883547669016587);
    lemma_fpow_even_step(7, 22369621);
    assert(fpow(7, 44739242) == 458110968676413213);
    lemma_fpow_odd_step(7, 44739242);
    assert(fpow(7, 89478485) == 11751894947584113056);
    lemma_fpow_even_step(7, 89478485);
    assert(fpow(7, 178956970) == 525895266577965633);
    lemma_fpow_odd_step(7, 178956970);
    assert(fpow(7, 357913941) == 3177182820897284811);
    lemma_fpow_even_step(7, 357913941);
    assert(fpow(7, 715827882) == 7964267603545906836);
    lemma_fpow_odd_step(7, 715827882);
    assert(fpow(7, 1431655765) == 14159254819154955796);
    lemma_fpow_even_step(7, 1431655765);
    assert(fpow(7, 2863311530) == 998724450546658713);
    lemma_fpow_even_step(7, 2863311530);
    assert(fpow(7, 5726623060) == 1811047956385014016);
    lemma_fpow_even_step(7, 5726623060);
    assert(fpow(7, 11453246120) == 2957134717709447844);
    lemma_fpow_even_step(7, 11453246120);
    assert(fpow(7, 22906492240) == 8418656202527058970);
    lemma_fpow_even_step(7, 22906492240);
    assert(fpow(7, 45812984480) == 9344165103595421707);
    lemma_fpow_even_step(7, 45812984480);
    assert(fpow(7, 91625968960) == 12398472707942400981);
    lemma_fpow_even_step(7, 91625968960);
    assert(fpow(7, 183251937920) == 10977358340789161543);
    lemma_fpow_even_step(7, 183251937920);
    assert(fpow(7, 366503875840) == 14519574879452399500);
    lemma_fpow_even_step(7, 366503875840);
    assert(fpow(7, 733007751680) == 3056692624244734627);
    lemma_fpow_even_step(7, 733007751680);
    assert(fpow(7, 1466015503360) == 17973258314804772181);
    lemma_fpow_even_step(7, 1466015503360);
    assert(fpow(7, 2932031006720) == 15462695660743809749);
    lemma_fpow_even_step(7, 2932031006720);
    assert(fpow(7, 5864062013440) == 18046908317468628738);
    lemma_fpow_even_step(7, 5864062013440);
    assert(fpow(7, 11728124026880) == 9144605907772536802);
    lemma_fpow_even_step(7, 11728124026880);
    assert(fpow(7, 23456248053760) == 8796482344486648840);
    lemma_fpow_even_step(7, 23456248053760);
    assert(fpow(7, 46912496107520) == 3596945015050375886);
    lemma_fpow_even_step(7, 46912496107520);
    assert(fpow(7, 93824992215040) == 4201997653601256896);
    lemma_fpow_even_step(7, 93824992215040);
    assert(fpow(7, 187649984430080) == 6905479200839918232);
    lemma_fpow_even_step(7, 187649984430080);
    assert(fpow(7, 375299968860160) == 1725491680989254570);
    lemma_fpow_even_step(7, 375299968860160);
    assert(fpow(7, 750599937720320) == 12370230134295797906);
    lemma_fpow_even_step(7, 750599937720320);
    assert(fpow(7, 1501199875440640) == 3734230229149707555);
    lemma_fpow_even_step(7, 1501199875440640);
    assert(fpow(7, 3002399750881280) == 16496341184493220914);
    lemma_fpow_even_step(7, 3002399750881280);
    assert(fpow(7, 6004799501762560) == 15331777707844533717);
    lemma_fpow_even_step(7, 6004799501762560);
    assert(fpow(7, 12009599003525120) == 11895029263313522992);
    lemma_fpow_even_step(7, 12009599003525120);
    assert(fpow(7, 24019198007050240) == 11373273867503537004);
    lemma_fpow_even_step(7, 24019198007050240);
    assert(fpow(7, 48038396014100480) == 13835058050987180033);
    lemma_fpow_even_step(7, 48038396014100480);
    assert(fpow(7, 96076792028200960) == 35184372080640);
    lemma_fpow_even_step(7, 96076792028200960);
    assert(fpow(7, 192153584056401920) == 18158513693262872577);
    lemma_fpow_even_step(7, 192153584056401920);
    assert(fpow(7, 384307168112803840) == 18446744069413535745);
    lemma_fpow_even_step(7, 384307168112803840);
    assert(fpow(7, 768614336225607680) == 1099511627776);
    lemma_fpow_even_step(7, 768614336225607680);
    assert(fpow(7, 1537228672451215360) == 281474976645120);
    lemma_fpow_even_step(7, 1537228672451215360);
    assert(fpow(7, 3074457344902430720) == 18446744065119617026);
    lemma_fpow_even_step(7, 3074457344902430720);
    assert(fpow(7, 6148914689804861440) == 18446744065119617025);
    assert((p() - 1) / 3 == 6148914689804861440);
}

/// `7^((p-1)/5) = 1373043270956696022`, which is not 1.
proof fn lemma_seven_pow_over_5()
    ensures
        fpow(7, ((p() - 1) / 5) as nat) == 1373043270956696022,
{
    lemma_fpow_one(7);
    lemma_fpow_odd_step(7, 1);
    assert(fpow(7, 3) == 343);
    lemma_fpow_even_step(7, 3);
    assert(fpow(7, 6) == 117649);
    lemma_fpow_even_step(7, 6);
    assert(fpow(7, 12) == 13841287201);
    lemma_fpow_odd_step(7, 12);
    assert(fpow(7, 25) == 12903046666114829695);
    lemma_fpow_odd_step(7, 25);
    assert(fpow(7, 51) == 11221315429317299127);
    lemma_fpow_even_step(7, 51);
    assert(fpow(7, 102) == 3745031562215636174);
    lemma_fpow_even_step(7, 102);
    assert(fpow(7, 204) == 14721374862152863140);
    lemma_fpow_odd_step(7, 204);
    assert(fpow(7, 409) == 4722125031313448055);
    lemma_fpow_odd_step(7, 409);
    assert(fpow(7, 819) == 13185163832710852318);
    lemma_fpow_even_step(7, 819);
    assert(fpow(7, 1638) == 2814030611640221029);
    lemma_fpow_even_step(7, 1638);
    assert(fpow(7, 3276) == 15305242945550478579);
    lemma_fpow_odd_step(7, 3276);
    assert(fpow(7, 6553) == 4055957887005023019);
    lemma_fpow_odd_step(7, 6553);
    assert(fpow(7, 13107) == 15895862450598400473);
    lemma_fpow_even_step(7, 13107);
    assert(fpow(7, 26214) == 15907429390595540903);
    lemma_fpow_even_step(7, 26214);
    assert(fpow(7, 52428) == 9571849187322067488);
    lemma_fpow_odd_step(7, 52428);
    assert(fpow(7, 104857) == 13342646475897591308);
    lemma_fpow_odd_step(7, 104857);
    assert(fpow(7, 209715) == 11968414678554910634);
    lemma_fpow_even_step(7, 209715);
    assert(fpow(7, 419430) == 9815939365277946145);
    lemma_fpow_even_step(7, 419430);
    assert(fpow(7, 838860) == 15620185229717233314);
    lemma_fpow_odd_step(7, 838860);
    assert(fpow(7, 1677721) == 531677932165793774);
    lemma_fpow_odd_step(7, 1677721);
    assert(fpow(7, 3355443) == 5959305040220178296);
    lemma_fpow_even_step(7, 3355443);
    assert(fpow(7, 6710886) == 6422988881738978288);
    lemma_fpow_even_step(7, 6710886);
    assert(fpow(7, 13421772) == 6417963550187649822);
    lemma_fpow_odd_step(7, 13421772);
    assert(fpow(7, 26843545) == 7536491442022418664);
    lemma_fpow_odd_step(7, 26843545);
    assert(fpow(7, 53687091) == 6156600053163182347);
    lemma_fpow_even_step(7, 53687091);
    assert(fpow(7, 107374182) == 774671493430776042);
    lemma_fpow_even_step(7, 107374182);
    assert(fpow(7, 214748364) == 5396215078887381364);
    lemma_fpow_odd_step(7, 214748364);
    assert(fpow(7, 429496729) == 15314337471363908198);
    lemma_fpow_odd_step(7, 429496729);
    assert(fpow(7, 858993459) == 3662027161463226824);
    lemma_fpow_even_step(7, 858993459);
    assert(fpow(7, 1717986918) == 11820361339200135398);
    lemma_fpow_even_step(7, 1717986918);
    assert(fpow(7, 3435973836) == 10563623981652513853);
    lemma_fpow_even_step(7, 3435973836);
    assert(fpow(7, 6871947672) == 11556889392494533434);
    lemma_fpow_even_step(7, 6871947672);
    assert(fpow(7, 13743895344) == 5123117391711505057);
    lemma_fpow_even_step(7, 13743895344);
    assert(fpow(7, 27487790688) == 18163573378392062736);
    lemma_fpow_even_step(7, 27487790688);
    assert(fpow(7, 54975581376) == 17372647198866510400);
    lemma_fpow_even_step(7, 54975581376);
    assert(fpow(7, 109951162752) == 1220884775256242639);
    lemma_fpow_even_step(7, 109951162752);
    assert(fpow(7, 219902325504) == 1436240010618898855);
    lemma_fpow_even_step(7, 219902325504);
    assert(fpow(7, 439804651008) == 968157462317130011);
    lemma_fpow_even_step(7, 439804651008);
    assert(fpow(7, 879609302016) == 993397133647309316);
    lemma_fpow_even_step(7, 879609302016);
    assert(fpow(7, 1759218604032) == 14359758886168776598);
    lemma_fpow_even_step(7, 1759218604032);
    assert(fpow(7, 3518437208064) == 11469785989846425790);
    lemma_fpow_even_step(7, 3518437208064);
    assert(fpow(7, 7036874416128) == 7202858824453247222);
    lemma_fpow_even_step(7, 7036874416128);
    assert(fpow(7, 14073748832256) == 8980223327998268287);
    lemma_fpow_even_step(7, 14073748832256);
    assert(fpow(7, 28147497664512) == 2898061628613144896);
    lemma_fpow_even_step(7, 28147497664512);
    assert(fpow(7, 56294995329024) == 5148563552100513047);
    lemma_fpow_even_step(7, 56294995329024);
    assert(fpow(7, 112589990658048) == 10405746850183322052);
    lemma_fpow_even_step(7, 112589990658048);
    assert(fpow(7, 225179981316096) == 8376609452955824527);
    lemma_fpow_even_step(7, 225179981316096);
    assert(fpow(7, 450359962632192) == 17819501121686609562);
    lemma_fpow_even_step(7, 450359962632192);
    assert(fpow(7, 900719925264384) == 12701195747762323519);
    lemma_fpow_even_step(7, 900719925264384);
    assert(fpow(7, 1801439850528768) == 16093963071722629223);
    lemma_fpow_even_step(7, 1801439850528768);
    assert(fpow(7, 3602879701057536) == 18098504255140688579);
    lemma_fpow_even_step(7, 3602879701057536);
    assert(fpow(7, 7205759402115072) == 3705545293506004500);
    lemma_fpow_even_step(7, 7205759402115072);
    assert(fpow(7, 14411518804230144) == 12143967077249500439);
    lemma_fpow_even_step(7, 14411518804230144);
    assert(fpow(7, 28823037608460288) == 8898934198923663040);
    lemma_fpow_even_step(7, 28823037608460288);
    assert(fpow(7, 57646075216920576) == 14017153681711143730);
    lemma_fpow_even_step(7, 57646075216920576);
    assert(fpow(7, 115292150433841152) == 13369903252519103517);
    lemma_fpow_even_step(7, 115292150433841152);
    assert(fpow(7, 230584300867682304) == 2271703332821311793);
    lemma_fpow_even_step(7, 230584300867682304);
    assert(fpow(7, 461168601735364608) == 14026992134716723275);
    lemma_fpow_even_step(7, 461168601735364608);
    assert(fpow(7, 922337203470729216) == 2281812832982421726);
    lemma_fpow_even_step(7, 922337203470729216);
    assert(fpow(7, 1844674406941458432) == 2625919085333925275);
    lemma_fpow_even_step(7, 1844674406941458432);
    assert(fpow(7, 3689348813882916864) == 1373043270956696022);
    assert((p() - 1) / 5 == 3689348813882916864);
}

/// `7^((p-1)/17) = 16301593560560007290`, which is not 1.
proof fn lemma_seven_pow_over_17()
    ensures
        fpow(7, ((p() - 1) / 17) as nat) == 16301593560560007290,
{
    lemma_fpow_one(7);
    lemma_fpow_odd_step(7, 1);
    assert(fpow(7, 3) == 343);
    lemma_fpow_odd_step(7, 3);
    assert(fpow(7, 7) == 823543);
    lemma_fpow_odd_step(7, 7);
    assert(fpow(7, 15) == 4747561509943);
    lemma_fpow_even_step(7, 15);
    assert(fpow(7, 30) == 1582037354089406189);
    lemma_fpow_even_step(7, 30);
    assert(fpow(7, 60) == 6704211459967285318);
    lemma_fpow_even_step(7, 60);
    assert(fpow(7, 120) == 12536486945555764682);
    lemma_fpow_even_step(7, 120);
    assert(fpow(7, 240) == 8329639379454877396);
    lemma_fpow_odd_step(7, 240);
    assert(fpow(7, 481) == 12103073565623681441);
    lemma_fpow_odd_step(7, 481);
    assert(fpow(7, 963) == 14844191010664918863);
    lemma_fpow_odd_step(7, 963);
    assert(fpow(7, 1927) == 13122058918416823729);
    lemma_fpow_odd_step(7, 1927);
    assert(fpow(7, 3855) == 18391788000542569559);
    lemma_fpow_even_step(7, 3855);
    assert(fpow(7, 7710) == 5815952681263863745);
    lemma_fpow_even_step(7, 7710);
    assert(fpow(7, 15420) == 15534263258852221519);
    lemma_fpow_even_step(7, 15420);
    assert(fpow(7, 30840) == 9621442331152125603);
    lemma_fpow_even_step(7, 30840);
    assert(fpow(7, 61680) == 13847347385863248794);
    lemma_fpow_odd_step(7, 61680);
    assert(fpow(7, 123361) == 9759263770000967494);
    lemma_fpow_odd_step(7, 123361);
    assert(fpow(7, 246723) == 8617703953199623826);
    lemma_fpow_odd_step(7, 246723);
    assert(fpow(7, 493447) == 18341993165004160224);
    lemma_fpow_odd_step(7, 493447);
    assert(fpow(7, 986895) == 16325541388042428380);
    lemma_fpow_even_step(7, 986895);
    assert(fpow(7, 1973790) == 87681681590930466);
    lemma_fpow_even_step(7, 1973790);
    assert(fpow(7, 3947580) == 1247600097974775228);
    lemma_fpow_even_step(7, 3947580);
    assert(fpow(7, 7895160) == 263672500424845310);
    lemma_fpow_even_step(7, 7895160);
    assert(fpow(7, 15790320) == 14075661776324224620);
    lemma_fpow_odd_step(7, 15790320);
    assert(fpow(7, 31580641) == 7684278052474903173);
    lemma_fpow_odd_step(7, 31580641);
    assert(fpow(7, 63161283) == 7708761456973364157);
    lemma_fpow_odd_step(7, 63161283);
    assert(fpow(7, 126322567) == 69940930452546681);
    lemma_fpow_odd_step(7, 126322567);
    assert(fpow(7, 252645135) == 16357725396938484569);
    lemma_fpow_even_step(7, 252645135);
    assert(fpow(7, 505290270) == 9635924811972810304);
    lemma_fpow_even_step(7, 505290270);
    assert(fpow(7, 1010580540) == 17792655913659759447);
    lemma_fpow_even_step(7, 1010580540);
    assert(fpow(7, 2021161080) == 757864979510442991);
    lemma_fpow_even_step(7, 2021161080);
    assert(fpow(7, 4042322160) == 5359388630104522475);
    lemma_fpow_even_step(7, 4042322160);
    assert(fpow(7, 8084644320) == 16844089689671372755);
    lemma_fpow_even_step(7, 8084644320);
    assert(fpow(7, 16169288640) == 3416859319420511225);
    lemma_fpow_even_step(7, 16169288640);
    assert(fpow(7, 32338577280) == 13225002848613916298);
    lemma_fpow_even_step(7, 32338577280);
    assert(fpow(7, 64677154560) == 3046446182183887513);
    lemma_fpow_even_step(7, 64677154560);
    assert(fpow(7, 129354309120) == 8471950025145571556);
    lemma_fpow_even_step(7, 129354309120);
    assert(fpow(7, 258708618240) == 14240312891968862088);
    lemma_fpow_even_step(7, 258708618240);
    assert(fpow(7, 517417236480) == 14284159170854690980);
    lemma_fpow_even_step(7, 517417236480);
    assert(fpow(7, 1034834472960) == 2140736107784648890);
    lemma_fpow_even_step(7, 1034834472960);
    assert(fpow(7, 2069668945920) == 720221585272617730);
    lemma_fpow_even_step(7, 2069668945920);
    assert(fpow(7, 4139337891840) == 14933742682021830494);
    lemma_fpow_even_step(7, 4139337891840);
    assert(fpow(7, 8278675783680) == 16866753830962059859);
    lemma_fpow_even_step(7, 8278675783680);
    assert(fpow(7, 16557351567360) == 4185523320037657098);
    lemma_fpow_even_step(7, 16557351567360);
    assert(fpow(7, 33114703134720) == 17086191566025186696);
    lemma_fpow_even_step(7, 33114703134720);
    assert(fpow(7, 66229406269440) == 1098680059505421076);
    lemma_fpow_even_step(7, 66229406269440);
    assert(fpow(7, 132458812538880) == 16940429312545755789);
    lemma_fpow_even_step(7, 132458812538880);
    assert(fpow(7, 264917625077760) == 16945016486212160087);
    lemma_fpow_even_step(7, 264917625077760);
    assert(fpow(7, 529835250155520) == 18171560771947831624);
    lemma_fpow_even_step(7, 529835250155520);
    assert(fpow(7, 1059670500311040) == 14884189242943664099);
    lemma_fpow_even_step(7, 1059670500311040);
    assert(fpow(7, 2119341000622080) == 7182983899389742773);
    lemma_fpow_even_step(7, 2119341000622080);
    assert(fpow(7, 4238682001244160) == 7794706010606133772);
    lemma_fpow_even_step(7, 4238682001244160);
    assert(fpow(7, 8477364002488320) == 5944394147430185930);
    lemma_fpow_even_step(7, 8477364002488320);
    assert(fpow(7, 16954728004976640) == 11638363544692747458);
    lemma_fpow_even_step(7, 16954728004976640);
    assert(fpow(7, 33909456009953280) == 8942909788274506390);
    lemma_fpow_even_step(7, 33909456009953280);
    assert(fpow(7, 67818912019906560) == 10254463118692560346);
    lemma_fpow_even_step(7, 67818912019906560);
    assert(fpow(7, 135637824039813120) == 6509392022269312871);
    lemma_fpow_even_step(7, 135637824039813120);
    assert(fpow(7, 271275648079626240) == 3060481852759670200);
    lemma_fpow_even_step(7, 271275648079626240);
    assert(fpow(7, 542551296159252480) == 9492362781570530732);
    lemma_fpow_even_step(7, 542551296159252480);
    assert(fpow(7, 1085102592318504960) == 16301593560560007290);
    assert((p() - 1) / 17 == 1085102592318504960);
}

/// `7^((p-1)/257) = 995085315851368103`, which is not 1.
proof fn lemma_seven_pow_over_257()
    ensures
        fpow(7, ((p() - 1) / 257) as nat) == 995085315851368103,
{
    lemma_fpow_one(7);
    lemma_fpow_odd_step(7, 1);
    assert(fpow(7, 3) == 343);
    lemma_fpow_odd_step(7, 3);
    assert(fpow(7, 7) == 823543);
    lemma_fpow_odd_step(7, 7);
    assert(fpow(7, 15) == 4747561509943);
    lemma_fpow_odd_step(7, 15);
    assert(fpow(7, 31) == 11074261478625843323);
    lemma_fpow_odd_step(7, 31);
    assert(fpow(7, 63) == 12148266161370408270);
    lemma_fpow_odd_step(7, 63);
    assert(fpow(7, 127) == 7007601668316978083);
    lemma_fpow_odd_step(7, 127);
    assert(fpow(7, 255) == 8125271997680889877);
    lemma_fpow_even_step(7, 255);
    assert(fpow(7, 510) == 10915923311382173605);
    lemma_fpow_even_step(7, 510);
    assert(fpow(7, 1020) == 8682737361258234340);
    lemma_fpow_even_step(7, 1020);
    assert(fpow(7, 2040) == 13168992710278412212);
    lemma_fpow_even_step(7, 2040);
    assert(fpow(7, 4080) == 3615243740316660512);
    lemma_fpow_even_step(7, 4080);
    assert(fpow(7, 8160) == 9701552052102210316);
    lemma_fpow_even_step(7, 8160);
    assert(fpow(7, 16320) == 12082995573853045936);
    lemma_fpow_even_step(7, 16320);
    assert(fpow(7, 32640) == 2592469405483382171);
    lemma_fpow_even_step(7, 32640);
    assert(fpow(7, 65280) == 8929377406043347353);
    lemma_fpow_odd_step(7, 65280);
    assert(fpow(7, 130561) == 13230650959860397101);
    lemma_fpow_odd_step(7, 130561);
    assert(fpow(7, 261123) == 4567519111026823348);
    lemma_fpow_odd_step(7, 261123);
    assert(fpow(7, 522247) == 14039453651739780561);
    lemma_fpow_odd_step(7, 522247);
    assert(fpow(7, 1044495) == 9849600182067894019);
    lemma_fpow_odd_step(7, 1044495);
    assert(fpow(7, 2088991) == 294188574756026472);
    lemma_fpow_odd_step(7, 2088991);
    assert(fpow(7, 4177983) == 13396756356721479597);
    lemma_fpow_odd_step(7, 4177983);
    assert(fpow(7, 8355967) == 227377812062300433);
    lemma_fpow_odd_step(7, 8355967);
    assert(fpow(7, 16711935) == 3277408507376532532);
    lemma_fpow_even_step(7, 16711935);
    assert(fpow(7, 33423870) == 10187910960120918295);
    lemma_fpow_even_step(7, 33423870);
    assert(fpow(7, 66847740) == 1234511965033452377);
    lemma_fpow_even_step(7, 66847740);
    assert(fpow(7, 133695480) == 15363200638052948867);
    lemma_fpow_even_step(7, 133695480);
    assert(fpow(7, 267390960) == 1236027695563809108);
    lemma_fpow_even_step(7, 267390960);
    assert(fpow(7, 534781920) == 12002353154524589429);
    lemma_fpow_even_step(7, 534781920);
    assert(fpow(7, 1069563840) == 14027517171084490203);
    lemma_fpow_even_step(7, 1069563840);
    assert(fpow(7, 2139127680) == 2711851439569513933);
    lemma_fpow_even_step(7, 2139127680);
    assert(fpow(7, 4278255360) == 80652374890911913);
    lemma_fpow_even_step(7, 4278255360);
    assert(fpow(7, 8556510720) == 5283607704788425345);
    lemma_fpow_even_step(7, 8556510720);
    assert(fpow(7, 17113021440) == 15514810852250684057);
    lemma_fpow_even_step(7, 17113021440);
    assert(fpow(7, 34226042880) == 13397417830393806946);
    lemma_fpow_even_step(7, 34226042880);
    assert(fpow(7, 68452085760) == 16359729400225625612);
    lemma_fpow_even_step(7, 68452085760);
    assert(fpow(7, 136904171520) == 8019533974815212444);
    lemma_fpow_even_step(7, 136904171520);
    assert(fpow(7, 273808343040) == 9655755660440986855);
    lemma_fpow_even_step(7, 273808343040);
    assert(fpow(7, 547616686080) == 3604536941271117731);
    lemma_fpow_even_step(7, 547616686080);
    assert(fpow(7, 1095233372160) == 17307879323250707139);
    lemma_fpow_even_step(7, 1095233372160);
    assert(fpow(7, 2190466744320) == 16869139653157226251);
    lemma_fpow_even_step(7, 2190466744320);
    assert(fpow(7, 4380933488640) == 6953284473670099805);
    lemma_fpow_even_step(7, 4380933488640);
    assert(fpow(7, 8761866977280) == 18224581395058808609);
    lemma_fpow_even_step(7, 8761866977280);
    assert(fpow(7, 17523733954560) == 12317229062629230801);
    lemma_fpow_even_step(7, 17523733954560);
    assert(fpow(7, 35047467909120) == 8521080430804482018);
    lemma_fpow_even_step(7, 35047467909120);
    assert(fpow(7, 70094935818240) == 1553296775282575040);
    lemma_fpow_even_step(7, 70094935818240);
    assert(fpow(7, 140189871636480) == 13200482976866298980);
    lemma_fpow_even_step(7, 140189871636480);
    assert(fpow(7, 280379743272960) == 14925891398157497804);
    lemma_fpow_even_step(7, 280379743272960);
    assert(fpow(7, 560759486545920) == 15678887058344505597);
    lemma_fpow_even_step(7, 560759486545920);
    assert(fpow(7, 1121518973091840) == 14658776698600081839);
    lemma_fpow_even_step(7, 1121518973091840);
    assert(fpow(7, 2243037946183680) == 16565152875265738852);
    lemma_fpow_even_step(7, 2243037946183680);
    assert(fpow(7, 4486075892367360) == 5984943436188102888);
    lemma_fpow_even_step(7, 4486075892367360);
    assert(fpow(7, 8972151784734720) == 14921717924877542342);
    lemma_fpow_even_step(7, 8972151784734720);
    assert(fpow(7, 17944303569469440) == 1654982787239893223);
    lemma_fpow_even_step(7, 17944303569469440);
    assert(fpow(7, 35888607138938880) == 18353445258623017512);
    lemma_fpow_even_step(7, 35888607138938880);
    assert(fpow(7, 71777214277877760) == 995085315851368103);
    assert((p() - 1) / 257 == 71777214277877760);
}

/// `7^((p-1)/65537) = 8478886009461009681`, which is not 1.
proof fn lemma_seven_pow_over_65537()
    ensures
        fpow(7, ((p() - 1) / 65537) as nat) == 8478886009461009681,
{
    lemma_fpow_one(7);
    lemma_fpow_odd_step(7, 1);
    assert(fpow(7, 3) == 343);
    lemma_fpow_odd_step(7, 3);
    assert(fpow(7, 7) == 823543);
    lemma_fpow_odd_step(7, 7);
    assert(fpow(7, 15) == 4747561509943);
    lemma_fpow_odd_step(7, 15);
    assert(fpow(7, 31) == 11074261478625843323);
    lemma_fpow_odd_step(7, 31);
    assert(fpow(7, 63) == 12148266161370408270);
    lemma_fpow_odd_step(7, 63);
    assert(fpow(7, 127) == 7007601668316978083);
    lemma_fpow_odd_step(7, 127);
    assert(fpow(7, 255) == 8125271997680889877);
    lemma_fpow_odd_step(7, 255);
    assert(fpow(7, 511) == 2624486902016877951);
    lemma_fpow_odd_step(7, 511);
    assert(fpow(7, 1023) == 8253119735826302939);
    lemma_fpow_odd_step(7, 1023);
    assert(fpow(7, 2047) == 3543566522599720475);
    lemma_fpow_odd_step(7, 2047);
    assert(fpow(7, 4095) == 11981551684735969599);
    lemma_fpow_odd_step(7, 4095);
    assert(fpow(7, 8191) == 10062120588441922115);
    lemma_fpow_odd_step(7, 8191);
    assert(fpow(7, 16383) == 10485806445487905393);
    lemma_fpow_odd_step(7, 16383);
    assert(fpow(7, 32767) == 4139485063330164956);
    lemma_fpow_odd_step(7, 32767);
    assert(fpow(7, 65535) == 12134830135347446949);
    lemma_fpow_even_step(7, 65535);
    assert(fpow(7, 131070) == 618113109518621269);
    lemma_fpow_even_step(7, 131070);
    assert(fpow(7, 262140) == 10057574059836717585);
    lemma_fpow_even_step(7, 262140);
    assert(fpow(7, 524280) == 11436575600859740313);
    lemma_fpow_even_step(7, 524280);
    assert(fpow(7, 1048560) == 2460531272136303351);
    lemma_fpow_even_step(7, 1048560);
    assert(fpow(7, 2097120) == 5287351674330089703);
    lemma_fpow_even_step(7, 2097120);
    assert(fpow(7, 4194240) == 2729558173611838869);
    lemma_fpow_even_step(7, 4194240);
    assert(fpow(7, 8388480) == 5809869834850305452);
    lemma_fpow_even_step(7, 8388480);
    assert(fpow(7, 16776960) == 4380238239217790048);
    lemma_fpow_even_step(7, 16776960);
    assert(fpow(7, 33553920) == 10313688370767105378);
    lemma_fpow_even_step(7, 33553920);
    assert(fpow(7, 67107840) == 1116132233887293652);
    lemma_fpow_even_step(7, 67107840);
    assert(fpow(7, 134215680) == 8201916556687100419);
    lemma_fpow_even_step(7, 134215680);
    assert(fpow(7, 268431360) == 9569002298025400893);
    lemma_fpow_even_step(7, 268431360);
    assert(fpow(7, 536862720) == 3860342023949954178);
    lemma_fpow_even_step(7, 536862720);
    assert(fpow(7, 1073725440) == 2518827640559301834);
    lemma_fpow_even_step(7, 1073725440);
    assert(fpow(7, 2147450880) == 4408381949760333744);
    lemma_fpow_even_step(7, 2147450880);
    assert(fpow(7, 4294901760) == 5214785644524920463);
    lemma_fpow_even_step(7, 4294901760);
    assert(fpow(7, 8589803520) == 16359673064222316581);
    lemma_fpow_even_step(7, 8589803520);
    assert(fpow(7, 17179607040) == 7241809583754189836);
    lemma_fpow_even_step(7, 17179607040);
    assert(fpow(7, 34359214080) == 12639803007403283714);
    lemma_fpow_even_step(7, 34359214080);
    assert(fpow(7, 68718428160) == 12324653451830581392);
    lemma_fpow_even_step(7, 68718428160);
    assert(fpow(7, 137436856320) == 3248773168955372845);
    lemma_fpow_even_step(7, 137436856320);
    assert(fpow(7, 274873712640) == 11622038198969340988);
    lemma_fpow_even_step(7, 274873712640);
    assert(fpow(7, 549747425280) == 13512512774593501075);
    lemma_fpow_even_step(7, 549747425280);
    assert(fpow(7, 1099494850560) == 7628844061018354094);
    lemma_fpow_even_step(7, 1099494850560);
    assert(fpow(7, 2198989701120) == 10832619856158324041);
    lemma_fpow_even_step(7, 2198989701120);
    assert(fpow(7, 4397979402240) == 6522121551337605094);
    lemma_fpow_even_step(7, 4397979402240);
    assert(fpow(7, 8795958804480) == 4924686556790045269);
    lemma_fpow_even_step(7, 8795958804480);
    assert(fpow(7, 17591917608960) == 8233486007872169718);
    lemma_fpow_even_step(7, 17591917608960);
    assert(fpow(7, 35183835217920) == 6861851865518519982);
    lemma_fpow_even_step(7, 35183835217920);
    assert(fpow(7, 70367670435840) == 16452032933035937120);
    lemma_fpow_even_step(7, 70367670435840);
    assert(fpow(7, 140735340871680) == 7318164361609642178);
    lemma_fpow_even_step(7, 140735340871680);
    assert(fpow(7, 281470681743360) == 8478886009461009681);
    assert((p() - 1) / 65537 == 281470681743360);
}

/// `7^(p-1) = 1`.
proof fn lemma_seven_pow_order()
    ensures
        fpow(7, (p() - 1) as nat) == 1,
{
    lemma_seven_pow_over_2();
    assert((p() - 1) / 2 == 9223372034707292160);
    assert(fpow(7, 9223372034707292160) == 18446744069414584320);
    lemma_fpow_even_step(7, 9223372034707292160);
    assert(fpow(7, 18446744069414584320) == 1);
    assert((p() - 1) as nat == 18446744069414584320);
}

/// `q` is prime: above 1, with no divisor strictly between 1 and itself.
pub open spec fn is_prime(q: int) -> bool {
    &&& q > 1
    &&& forall|d: int| 1 < d < q ==> #[trigger] (q % d) != 0
}

/// The prime factors of `p - 1` are prime.
proof fn lemma_factors_prime()
    ensures
        is_prime(2),
        is_prime(3),
        is_prime(5),
        is_prime(17),
        is_prime(257),
        is_prime(65537),
{
    assert(forall|d: u32| 1 < d && d < 3 ==> #[trigger] (3u32 % d) != 0) by (bit_vector);
    assert(forall|d: u32| 1 < d && d < 5 ==> #[trigger] (5u32 % d) != 0) by (bit_vector);
    assert(forall|d: u32| 1 < d && d < 17 ==> #[trigger] (17u32 % d) != 0) by (bit_vector);
    assert(forall|d: u32| 1 < d && d < 257 ==> #[trigger] (257u32 % d) != 0) by (bit_vector);
    assert(forall|d: u32| 1 < d && d < 65537 ==> #[trigger] (65537u32 % d) != 0) by (bit_vector);
    assert forall|d: int| 1 < d < 3 implies #[trigger] (3int % d) != 0 by {
        assert(3u32 % (d as u32) != 0);
    }
    assert forall|d: int| 1 < d < 5 implies #[trigger] (5int % d) != 0 by {
        assert(5u32 % (d as u32) != 0);
    }
    assert forall|d: int| 1 < d < 17 implies #[trigger] (17int % d) != 0 by {
        assert(17u32 % (d as u32) != 0);
    }
    assert forall|d: int| 1 < d < 257 implies #[trigger] (257int % d) != 0 by {
        assert(257u32 % (d as u32) != 0);
    }
    assert forall|d: int| 1 < d < 65537 implies #[trigger] (65537int % d) != 0 by {
        assert(65537u32 % (d as u32) != 0);
    }
}

/// Extended Euclid: `(g, x, y)` with `g = a·x + b·y` the greatest common
/// divisor of `a` and `b`.
spec fn egcd(a: nat, b: nat) -> (int, int, int)
    decreases b,
{
    if b == 0 {
        (a as int, 1, 0)
    } else {
        let r = egcd(b, a % b);
        (r.0, r.2, r.1 - (a / b) as int * r.2)
    }
}

proof fn lemma_egcd(a: nat, b: nat)
    ensures
        egcd(a, b).0 == a * egcd(a, b).1 + b * egcd(a, b).2,
        a > 0 || b > 0 ==> egcd(a, b).0 > 0 && (a as int) % egcd(a, b).0 == 0 && (b as int) % egcd(a, b).0 == 0,
    decreases b,
{
    if b == 0 {
        if a > 0 {
            lemma_mod_self_0(a as int);
            lemma_small_mod(0, a);
        }
    } else {
        let r = egcd(b, a % b);
        lemma_egcd(b, a % b);
        let g = r.0;
        let x = r.1;
        let y = r.2;
        let q = (a / b) as int;
        let m = (a % b) as int;
        lemma_fundamental_div_mod(a as int, b as int);
        assert(a == b * q + m);
        assert(g == a * y + b * (x - q * y)) by (nonlinear_arith)
            requires
                g == b * x + m * y,
                a == b * q + m,
        ;
        lemma_fundamental_div_mod(b as int, g);
        lemma_fundamental_div_mod(m, g);
        let s = (b as int) / g;
        let t = m / g;
        assert(a == (s * q + t) * g) by (nonlinear_arith)
            requires
                a == b * q + m,
                b == g * s + 0,
                m == g * t + 0,
        ;
        lemma_mod_multiples_basic(s * q + t, g);
    }
}

/// Euclid's lemma: a prime dividing a product divides one of its factors.
proof fn lemma_euclid(q: int, a: int, b: int)
    requires
        is_prime(q),
        (a * b) % q == 0,
        a % q != 0,
    ensures
        b % q == 0,
{
    lemma_mod_bound(a, q);
    let am = a % q;
    let r = egcd(q as nat, am as nat);
    lemma_egcd(q as nat, am as nat);
    let g = r.0;
    if g > q {
        lemma_small_mod(q as nat, g as nat);
    }
    if g == q {
        lemma_small_mod(am as nat, q as nat);
    }
    if 1 < g < q {
        assert(q % g != 0);
    }
    assert(g == 1);
    let x = r.1;
    let y = r.2;
    assert(b == b * q * x + (b * am) * y) by (nonlinear_arith)
        requires
            1 == q * x + am * y,
    ;
    lemma_mul_mod_noop_right(b, a, q);
    assert(b * a == a * b) by (nonlinear_arith);
    lemma_fundamental_div_mod(b * am, q);
    let k = (b * am) / q;
    assert(b == (b * x + k * y) * q) by (nonlinear_arith)
        requires
            b == b * q * x + (b * am) * y,
            b * am == q * k + 0,
    ;
    lemma_mod_multiples_basic(b * x + k * y, q);
}

/// A number `m` that divides `q·x`, for a prime `q` that does not divide
/// `m`, divides `x`.
proof fn lemma_peel(m: int, q: int, x: int)
    requires
        m > 0,
        is_prime(q),
        m % q != 0,
        (q * x) % m == 0,
    ensures
        x % m == 0,
{
    lemma_fundamental_div_mod(q * x, m);
    let k = (q * x) / m;
    assert(m * k == k * m) by (nonlinear_arith);
    assert(m * k == x * q) by (nonlinear_arith)
        requires
            q * x == m * k + 0,
    ;
    lemma_mod_multiples_basic(x, q);
    lemma_euclid(q, m, k);
    lemma_fundamental_div_mod(k, q);
    let j = k / q;
    assert(x == j * m) by (nonlinear_arith)
        requires
            q > 1,
            q * x == m * k,
            k == q * j + 0,
    ;
    lemma_mod_multiples_basic(j, m);
}

/// A number `m` that divides `2^e·x` and is odd divides `x`.
proof fn lemma_peel_twos(m: int, e: nat, x: int)
    requires
        m > 0,
        m % 2 != 0,
        (pow(2, e) * x) % m == 0,
    ensures
        x % m == 0,
    decreases e,
{
    if e > 0 {
        lemma_factors_prime();
        reveal(pow);
        assert(pow(2, e) * x == 2 * (pow(2, (e - 1) as nat) * x)) by (nonlinear_arith)
            requires
                pow(2, e) == 2 * pow(2, (e - 1) as nat),
        ;
        lemma_peel(m, 2, pow(2, (e - 1) as nat) * x);
        lemma_peel_twos(m, (e - 1) as nat, x);
    } else {
        reveal(pow);
    }
}

/// `a^(m+n) = a^m · a^n`.
proof fn lemma_fpow_add(a: int, m: nat, n: nat)
    ensures
        fpow(a, m + n) == fmul(fpow(a, m), fpow(a, n)),
{
    lemma_pow_adds(a, m, n);
    lemma_mul_mod_noop(pow(a, m), pow(a, n), p());
}

/// `a^(m·n) = (a^m)^n`.
proof fn lemma_fpow_mul_exp(a: int, m: nat, n: nat)
    ensures
        fpow(a, m * n) == fpow(fpow(a, m), n),
{
    lemma_pow_multiplies(a, m, n);
    lemma_pow_mod_noop(pow(a, m), n, p());
}

/// `1^n = 1`.
proof fn lemma_fpow_of_one(n: nat)
    ensures
        fpow(1, n) == 1,
{
    lemma1_pow(n);
    lemma_small_mod(1, p() as nat);
}

/// A residue times 1 is itself.
proof fn lemma_fmul_one(x: nat)
    requires
        x < p(),
    ensures
        fmul(1, x as int) == x,
{
    lemma_small_mod(x, p() as nat);
}

/// Below any exponent that takes 7 to 1 lies a least positive one.
proof fn lemma_least_exponent(n: nat) -> (t: nat)
    requires
        n > 0,
        fpow(7, n) == 1,
    ensures
        0 < t <= n,
        fpow(7, t) == 1,
        forall|s: nat| 0 < s < t ==> #[trigger] fpow(7, s) != 1,
    decreases n,
{
    if exists|s: nat| 0 < s < n && #[trigger] fpow(7, s) == 1 {
        let s = choose|s: nat| 0 < s < n && #[trigger] fpow(7, s) == 1;
        lemma_least_exponent(s)
    } else {
        n
    }
}

/// The least exponent that takes 7 to 1 divides every such exponent.
proof fn lemma_order_divides(t: nat, e: nat)
    requires
        t > 0,
        fpow(7, t) == 1,
        forall|s: nat| 0 < s < t ==> #[trigger] fpow(7, s) != 1,
        fpow(7, e) == 1,
    ensures
        e % t == 0,
{
    lemma_fundamental_div_mod(e as int, t as int);
    let s = e / t;
    let r = e % t;
    lemma_fpow_mul_exp(7, t, s);
    lemma_fpow_of_one(s);
    lemma_fpow_add(7, t * s, r);
    assert(e == t * s + r);
    lemma_mod_bound(pow(7, r), p());
    lemma_fmul_one(fpow(7, r) as nat);
    if r > 0 {
        assert(fpow(7, r) != 1);
    }
}

/// The prime `q` does not divide `(p-1)/t` when 7 is not taken to 1 by
/// `(p-1)/q`.
proof fn lemma_cofactor_not_divisible(t: nat, m: nat, q: nat, v: int)
    requires
        t > 0,
        q > 0,
        fpow(7, t) == 1,
        p() - 1 == t * m,
        fpow(7, ((p() - 1) / (q as int)) as nat) == v,
        v != 1,
    ensures
        m % q != 0,
{
    if m % q == 0 {
        lemma_fundamental_div_mod(m as int, q as int);
        let j = m / q;
        assert(p() - 1 == (t * j) * q) by (nonlinear_arith)
            requires
                p() - 1 == t * m,
                m == q * j + 0,
        ;
        lemma_div_by_multiple((t * j) as int, q as int);
        lemma_fpow_mul_exp(7, t, j);
        lemma_fpow_of_one(j);
    }
}

/// The least exponent that takes 7 to 1 is `p - 1`.
proof fn lemma_seven_order(t: nat)
    requires
        t > 0,
        fpow(7, t) == 1,
        forall|s: nat| 0 < s < t ==> #[trigger] fpow(7, s) != 1,
    ensures
        t == p() - 1,
{
    let n = (p() - 1) as nat;
    lemma_seven_pow_order();
    lemma_order_divides(t, n);
    lemma_fundamental_div_mod(n as int, t as int);
    let m = n / t;
    assert(p() - 1 == t * m);
    assert(m > 0) by (nonlinear_arith)
        requires
            p() - 1 == t * m,
            p() > 1,
    ;
    lemma_seven_pow_over_2();
    lemma_seven_pow_over_3();
    lemma_seven_pow_over_5();
    lemma_seven_pow_over_17();
    lemma_seven_pow_over_257();
    lemma_seven_pow_over_65537();
    lemma_cofactor_not_divisible(t, m, 2, 18446744069414584320);
    lemma_cofactor_not_divisible(t, m, 3, 18446744065119617025);
    lemma_cofactor_not_divisible(t, m, 5, 1373043270956696022);
    lemma_cofactor_not_divisible(t, m, 17, 16301593560560007290);
    lemma_cofactor_not_divisible(t, m, 257, 995085315851368103);
    lemma_cofactor_not_divisible(t, m, 65537, 8478886009461009681);
    // m divides p - 1 = 2^32 · 3 · 5 · 17 · 257 · 65537 and none of its
    // prime factors, so m = 1
    let mi = m as int;
    lemma_mod_multiples_basic(t as int, mi);
    assert((t as int) * mi == t * m);
    assert((p() - 1) % mi == 0);
    assert(pow(2, 32) == 0x1_0000_0000) by {
        vstd::arithmetic::power2::lemma2_to64();
        vstd::arithmetic::power2::lemma_pow2(32);
    }
    assert(p() - 1 == pow(2, 32) * (3int * (5int * (17int * (257int * (65537int * 1int))))));
    lemma_factors_prime();
    lemma_peel_twos(mi, 32, 3int * (5int * (17int * (257int * (65537int * 1int)))));
    lemma_peel(mi, 3, 5int * (17int * (257int * (65537int * 1int))));
    lemma_peel(mi, 5, 17int * (257int * (65537int * 1int)));
    lemma_peel(mi, 17, 257int * (65537int * 1int));
    lemma_peel(mi, 257, 65537int * 1int);
    lemma_peel(mi, 65537, 1);
    if mi > 1 {
        lemma_small_mod(1, m);
    }
    assert(m == 1);
    assert(t * m == t) by (nonlinear_arith)
        requires
            m == 1,
    ;
}

/// Distinct exponents below `p - 1` give distinct powers of 7, none zero.
proof fn lemma_powers_distinct(i: nat, j: nat)
    requires
        i < j < p() - 1,
        fpow(7, (p() - 1) as nat) == 1,
        forall|s: nat| 0 < s < p() - 1 ==> #[trigger] fpow(7, s) != 1,
    ensures
        fpow(7, i) != fpow(7, j),
{
    let n = (p() - 1) as nat;
    let d = (j - i) as nat;
    lemma_fpow_add(7, (n - i) as nat, j);
    lemma_fpow_add(7, (n - i) as nat, i);
    lemma_fpow_add(7, n, d);
    assert((n - i) as nat + j == n + d);
    assert((n - i) as nat + i == n);
    lemma_mod_bound(pow(7, d), p());
    lemma_fmul_one(fpow(7, d) as nat);
    assert(fpow(7, d) != 1);
}

/// A power of 7 is not zero.
proof fn lemma_power_nonzero(i: nat)
    requires
        i < p() - 1,
        fpow(7, (p() - 1) as nat) == 1,
    ensures
        fpow(7, i) != 0,
{
    let n = (p() - 1) as nat;
    lemma_fpow_add(7, (n - i) as nat, i);
    assert((n - i) as nat + i == n);
    lemma_small_mod(0, p() as nat);
    assert(fpow(7, (n - i) as nat) * 0 == 0);
}

/// Every nonzero residue is a power of 7.
proof fn lemma_every_residue_is_power(x: int)
    requires
        1 <= x < p(),
        fpow(7, (p() - 1) as nat) == 1,
        forall|s: nat| 0 < s < p() - 1 ==> #[trigger] fpow(7, s) != 1,
    ensures
        exists|i: nat| i < p() - 1 && #[trigger] fpow(7, i) == x,
{
    let n = p() - 1;
    let dom = set_int_range(0, n);
    let f = |i: int| fpow(7, i as nat);
    let img = dom.map(f);
    lemma_int_range(0, n);
    assert forall|a: int, b: int| dom.contains(a) && dom.contains(b) && #[trigger] f(a) == #[trigger] f(b) implies a
        == b by {
        if a < b {
            lemma_powers_distinct(a as nat, b as nat);
        } else if b < a {
            lemma_powers_distinct(b as nat, a as nat);
        }
    }
    assert(injective_on(f, dom));
    lemma_map_size(dom, img, f);
    let tgt = set_int_range(1, p());
    lemma_int_range(1, p());
    assert forall|y: int| img.contains(y) implies tgt.contains(y) by {
        let i = choose|i: int| dom.contains(i) && f(i) == y;
        lemma_power_nonzero(i as nat);
        lemma_mod_bound(pow(7, i as nat), p());
    }
    lemma_subset_equality(img, tgt);
    assert(tgt.contains(x));
    assert(img.contains(x));
    let i = choose|i: int| dom.contains(i) && f(i) == x;
    assert(fpow(7, i as nat) == x);
}

/// Fermat's little theorem: `a^(p-1) = 1` for every `a` that `p` does not
/// divide.
pub proof fn lemma_fermat(a: int)
    requires
        a % p() != 0,
    ensures
        fpow(a, (p() - 1) as nat) == 1,
{
    let n = (p() - 1) as nat;
    lemma_seven_pow_order();
    let t = lemma_least_exponent(n);
    lemma_seven_order(t);
    lemma_mod_bound(a, p());
    let x = a % p();
    lemma_every_residue_is_power(x);
    let i = choose|i: nat| i < p() - 1 && #[trigger] fpow(7, i) == x;
    lemma_pow_mod_noop(a, n, p());
    lemma_fpow_mul_exp(7, i, n);
    lemma_fpow_mul_exp(7, n, i);
    assert(i * n == n * i) by (nonlinear_arith);
    lemma_fpow_of_one(i);
}

/// A difference of two distinct grid nodes below `p` has `d^(p-1) = 1`.
proof fn lemma_fermat_difference(i: int, j: int)
    requires
        0 <= i < p(),
        0 <= j < p(),
        i != j,
    ensures
        fpow(fsub(i, j), (p() - 1) as nat) == 1,
{
    let d = i - j;
    if d > 0 {
        lemma_small_mod(d as nat, p() as nat);
    } else {
        lemma_mod_add_multiples_vanish(d, p());
        lemma_small_mod((p() + d) as nat, p() as nat);
    }
    lemma_mod_bound(d, p());
    lemma_small_mod(fsub(i, j) as nat, p() as nat);
    lemma_fermat(fsub(i, j));
}

/// A Lagrange denominator of the grid `0..k`, `k <= p`, has `d^(p-1) = 1`.
proof fn lemma_prod_except_fermat(i: int, k: nat)
    requires
        0 <= i < p(),
        k <= p(),
    ensures
        fpow(prod_except(i, i, k), (p() - 1) as nat) == 1,
    decreases k,
{
    let e = (p() - 1) as nat;
    if k == 0 {
        lemma_fpow_of_one(e);
    } else {
        lemma_prod_except_fermat(i, (k - 1) as nat);
        if k - 1 != i {
            let prev = prod_except(i, i, (k - 1) as nat);
            lemma_fermat_difference(i, k - 1);
            lemma_fpow_mul(prev, fsub(i, k - 1), e);
            assert(fmul(1, 1) == 1) by {
                lemma_small_mod(1, p() as nat);
            }
        }
    }
}

/// Interpolation through up to `p` nodes is defined: the Lagrange
/// denominators of the grid `0..n` pass the inversion check.
pub proof fn lemma_interp_defined(n: nat)
    requires
        n <= p(),
    ensures
        interp_defined(n),
{
    assert forall|i: int| 0 <= i < n implies #[trigger] inv_ok(prod_except(i, i, n)) by {
        lemma_prod_except_fermat(i, n);
        lemma_inv_ok_of_fermat(prod_except(i, i, n));
    }
}

} // verus!
